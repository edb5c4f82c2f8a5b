//! The instruction-set architecture: the value encoding that unifies
//! immediate numbers and register references in one 16-bit word, the
//! 22-opcode instruction model, and the codec between structured
//! instructions and the word stream in memory.

use vstd::prelude::*;

use crate::errors::VmError;

verus! {

/// Number of memory cells, and the modulus of the 15-bit value domain.
pub const MEM_SIZE: usize = 32768;

/// A decoded operand word: an immediate number below 32768, one of the
/// eight registers, or an encoding outside both ranges.
#[derive(Copy, Clone, Debug, PartialEq, Eq, PartialOrd, Ord, Hash, Structural)]
pub enum Val {
    Num(u16),
    Reg(usize),
    Invalid,
}

/// How a 16-bit word decodes: immediates below 32768, registers from
/// 32768 to 32775, everything above is invalid.
pub open spec fn spec_decode(w: u16) -> Val {
    if w < 32768 {
        Val::Num(w)
    } else if w < 32776 {
        Val::Reg((w - 32768) as usize)
    } else {
        Val::Invalid
    }
}

/// The inverse encoding on the first two variants; `Invalid` has no
/// canonical encoding and is mapped to the first out-of-domain word.
pub open spec fn spec_encode(v: Val) -> u16 {
    match v {
        Val::Num(n) => n,
        Val::Reg(r) => (r + 32768) as u16,
        Val::Invalid => 32776,
    }
}

/// An operand that lies in the machine's domain: an immediate below 32768
/// or one of the eight registers.
pub open spec fn wf_val(v: Val) -> bool {
    match v {
        Val::Num(n) => n < 32768,
        Val::Reg(r) => r < 8,
        Val::Invalid => true,
    }
}

impl Val {
    /// Decode one memory word.
    pub fn new(v: u16) -> (r: Val)
        ensures
            r == spec_decode(v),
    {
        if v < 32768 {
            Val::Num(v)
        } else if v < 32776 {
            Val::Reg((v - 32768) as usize)
        } else {
            Val::Invalid
        }
    }

    /// Re-encode an operand as a memory word.
    pub fn as_binary(&self) -> (w: u16)
        requires
            wf_val(*self),
        ensures
            w == spec_encode(*self),
    {
        match self {
            Val::Num(v) => *v,
            Val::Reg(r) => (*r as u16) + 32768,
            Val::Invalid => 32776,
        }
    }
}

/// Decoding always lands in the machine's domain.
pub proof fn lemma_decode_wf(w: u16)
    ensures
        wf_val(spec_decode(w)),
{
}

/// Re-encoding inverts decoding on every word that decodes to an
/// immediate or a register.
pub proof fn lemma_encode_decode(w: u16)
    ensures
        spec_decode(w) != Val::Invalid ==> spec_encode(spec_decode(w)) == w,
{
}

/// Decoding inverts re-encoding on every in-domain operand.
pub proof fn lemma_decode_encode(v: Val)
    requires
        wf_val(v),
    ensures
        spec_decode(spec_encode(v)) == v,
{
}

/// One machine instruction with its decoded operands.
#[derive(Copy, Clone, Debug, PartialEq, Eq, PartialOrd, Ord, Hash, Structural)]
pub enum Opcode {
    Halt,
    Assign(Val, Val),
    Push(Val),
    Pop(Val),
    Eq(Val, Val, Val),
    Gt(Val, Val, Val),
    /// jump to `a`
    Jmp(Val),
    /// if `a` is nonzero, jump to `b`
    Jt(Val, Val),
    /// if `a` is zero, jump to `b`
    Jf(Val, Val),
    Add(Val, Val, Val),
    Mult(Val, Val, Val),
    Mod(Val, Val, Val),
    And(Val, Val, Val),
    Or(Val, Val, Val),
    Not(Val, Val),
    Rmem(Val, Val),
    Wmem(Val, Val),
    /// write the address of the next instruction to the stack and jump to `a`
    Call(Val),
    /// remove the top element from the stack and jump to it; empty stack halts
    Ret,
    Out(Val),
    In(Val),
    Noop,
}

/// The numeric tag under which an instruction is stored in memory.
pub open spec fn spec_tag(op: Opcode) -> u16 {
    match op {
        Opcode::Halt => 0,
        Opcode::Assign(_, _) => 1,
        Opcode::Push(_) => 2,
        Opcode::Pop(_) => 3,
        Opcode::Eq(_, _, _) => 4,
        Opcode::Gt(_, _, _) => 5,
        Opcode::Jmp(_) => 6,
        Opcode::Jt(_, _) => 7,
        Opcode::Jf(_, _) => 8,
        Opcode::Add(_, _, _) => 9,
        Opcode::Mult(_, _, _) => 10,
        Opcode::Mod(_, _, _) => 11,
        Opcode::And(_, _, _) => 12,
        Opcode::Or(_, _, _) => 13,
        Opcode::Not(_, _) => 14,
        Opcode::Rmem(_, _) => 15,
        Opcode::Wmem(_, _) => 16,
        Opcode::Call(_) => 17,
        Opcode::Ret => 18,
        Opcode::Out(_) => 19,
        Opcode::In(_) => 20,
        Opcode::Noop => 21,
    }
}

/// Number of memory words an instruction occupies: the tag plus one word
/// per operand.
pub open spec fn spec_size(op: Opcode) -> int {
    1 + spec_arity(spec_tag(op))
}

/// Number of operand words for each opcode tag; tags outside `0..=21` do
/// not name an instruction and get arity 0.
pub open spec fn spec_arity(tag: u16) -> int {
    if tag == 0 || tag == 18 || tag == 21 {
        0
    } else if tag == 2 || tag == 3 || tag == 6 || tag == 17 || tag == 19 || tag == 20 {
        1
    } else if tag == 1 || tag == 7 || tag == 8 || tag == 14 || tag == 15 || tag == 16 {
        2
    } else if tag == 4 || tag == 5 || tag == 9 || tag == 10 || tag == 11 || tag == 12 || tag == 13 {
        3
    } else {
        0
    }
}

/// An instruction whose operands all lie in the machine's domain.
pub open spec fn wf_op(op: Opcode) -> bool {
    match op {
        Opcode::Halt => true,
        Opcode::Assign(a, b) => wf_val(a) && wf_val(b),
        Opcode::Push(a) => wf_val(a),
        Opcode::Pop(a) => wf_val(a),
        Opcode::Eq(a, b, c) => wf_val(a) && wf_val(b) && wf_val(c),
        Opcode::Gt(a, b, c) => wf_val(a) && wf_val(b) && wf_val(c),
        Opcode::Jmp(a) => wf_val(a),
        Opcode::Jt(a, b) => wf_val(a) && wf_val(b),
        Opcode::Jf(a, b) => wf_val(a) && wf_val(b),
        Opcode::Add(a, b, c) => wf_val(a) && wf_val(b) && wf_val(c),
        Opcode::Mult(a, b, c) => wf_val(a) && wf_val(b) && wf_val(c),
        Opcode::Mod(a, b, c) => wf_val(a) && wf_val(b) && wf_val(c),
        Opcode::And(a, b, c) => wf_val(a) && wf_val(b) && wf_val(c),
        Opcode::Or(a, b, c) => wf_val(a) && wf_val(b) && wf_val(c),
        Opcode::Not(a, b) => wf_val(a) && wf_val(b),
        Opcode::Rmem(a, b) => wf_val(a) && wf_val(b),
        Opcode::Wmem(a, b) => wf_val(a) && wf_val(b),
        Opcode::Call(a) => wf_val(a),
        Opcode::Ret => true,
        Opcode::Out(a) => wf_val(a),
        Opcode::In(a) => wf_val(a),
        Opcode::Noop => true,
    }
}

impl Opcode {
    /// Word count of this instruction per the opcode table.
    pub fn size(&self) -> (s: usize)
        ensures
            s == spec_size(*self),
            1 <= s <= 4,
    {
        match self {
            Opcode::Halt => 1,
            Opcode::Assign(_, _) => 3,
            Opcode::Push(_) => 2,
            Opcode::Pop(_) => 2,
            Opcode::Eq(_, _, _) => 4,
            Opcode::Gt(_, _, _) => 4,
            Opcode::Jmp(_) => 2,
            Opcode::Jt(_, _) => 3,
            Opcode::Jf(_, _) => 3,
            Opcode::Add(_, _, _) => 4,
            Opcode::Mult(_, _, _) => 4,
            Opcode::Mod(_, _, _) => 4,
            Opcode::And(_, _, _) => 4,
            Opcode::Or(_, _, _) => 4,
            Opcode::Not(_, _) => 3,
            Opcode::Rmem(_, _) => 3,
            Opcode::Wmem(_, _) => 3,
            Opcode::Call(_) => 2,
            Opcode::Ret => 1,
            Opcode::Out(_) => 2,
            Opcode::In(_) => 2,
            Opcode::Noop => 1,
        }
    }

    /// The numeric tag of this instruction.
    pub fn tag(&self) -> (t: u16)
        ensures
            t == spec_tag(*self),
            t <= 21,
    {
        match self {
            Opcode::Halt => 0,
            Opcode::Assign(_, _) => 1,
            Opcode::Push(_) => 2,
            Opcode::Pop(_) => 3,
            Opcode::Eq(_, _, _) => 4,
            Opcode::Gt(_, _, _) => 5,
            Opcode::Jmp(_) => 6,
            Opcode::Jt(_, _) => 7,
            Opcode::Jf(_, _) => 8,
            Opcode::Add(_, _, _) => 9,
            Opcode::Mult(_, _, _) => 10,
            Opcode::Mod(_, _, _) => 11,
            Opcode::And(_, _, _) => 12,
            Opcode::Or(_, _, _) => 13,
            Opcode::Not(_, _) => 14,
            Opcode::Rmem(_, _) => 15,
            Opcode::Wmem(_, _) => 16,
            Opcode::Call(_) => 17,
            Opcode::Ret => 18,
            Opcode::Out(_) => 19,
            Opcode::In(_) => 20,
            Opcode::Noop => 21,
        }
    }

    /// The bit this instruction's tag occupies in a trace-filter mask.
    pub fn discriminant(&self) -> (d: u32)
        ensures
            d == (1u32 << spec_tag(*self)),
    {
        let t = self.tag();
        1u32 << (t as u32)
    }
}

/// The instruction encoded at address `ip` of `mem`, or `None` when the
/// tag word is not in `0..=21` or the operands would lie outside `mem`.
pub open spec fn spec_fetch(mem: Seq<u16>, ip: int) -> Option<Opcode> {
    if !(0 <= ip < mem.len()) {
        None
    } else {
        let tag = mem[ip];
        if tag > 21 {
            None
        } else if ip + 1 + spec_arity(tag) > mem.len() {
            None
        } else {
            let a = spec_decode(mem[ip + 1]);
            let b = spec_decode(mem[ip + 2]);
            let c = spec_decode(mem[ip + 3]);
            if tag == 0 {
                Some(Opcode::Halt)
            } else if tag == 1 {
                Some(Opcode::Assign(a, b))
            } else if tag == 2 {
                Some(Opcode::Push(a))
            } else if tag == 3 {
                Some(Opcode::Pop(a))
            } else if tag == 4 {
                Some(Opcode::Eq(a, b, c))
            } else if tag == 5 {
                Some(Opcode::Gt(a, b, c))
            } else if tag == 6 {
                Some(Opcode::Jmp(a))
            } else if tag == 7 {
                Some(Opcode::Jt(a, b))
            } else if tag == 8 {
                Some(Opcode::Jf(a, b))
            } else if tag == 9 {
                Some(Opcode::Add(a, b, c))
            } else if tag == 10 {
                Some(Opcode::Mult(a, b, c))
            } else if tag == 11 {
                Some(Opcode::Mod(a, b, c))
            } else if tag == 12 {
                Some(Opcode::And(a, b, c))
            } else if tag == 13 {
                Some(Opcode::Or(a, b, c))
            } else if tag == 14 {
                Some(Opcode::Not(a, b))
            } else if tag == 15 {
                Some(Opcode::Rmem(a, b))
            } else if tag == 16 {
                Some(Opcode::Wmem(a, b))
            } else if tag == 17 {
                Some(Opcode::Call(a))
            } else if tag == 18 {
                Some(Opcode::Ret)
            } else if tag == 19 {
                Some(Opcode::Out(a))
            } else if tag == 20 {
                Some(Opcode::In(a))
            } else {
                Some(Opcode::Noop)
            }
        }
    }
}

/// The word stream of one instruction: its tag followed by its re-encoded
/// operands.
pub open spec fn spec_assemble(op: Opcode) -> Seq<u16> {
    match op {
        Opcode::Halt => seq![0u16],
        Opcode::Assign(a, b) => seq![1u16, spec_encode(a), spec_encode(b)],
        Opcode::Push(a) => seq![2u16, spec_encode(a)],
        Opcode::Pop(a) => seq![3u16, spec_encode(a)],
        Opcode::Eq(a, b, c) => seq![4u16, spec_encode(a), spec_encode(b), spec_encode(c)],
        Opcode::Gt(a, b, c) => seq![5u16, spec_encode(a), spec_encode(b), spec_encode(c)],
        Opcode::Jmp(a) => seq![6u16, spec_encode(a)],
        Opcode::Jt(a, b) => seq![7u16, spec_encode(a), spec_encode(b)],
        Opcode::Jf(a, b) => seq![8u16, spec_encode(a), spec_encode(b)],
        Opcode::Add(a, b, c) => seq![9u16, spec_encode(a), spec_encode(b), spec_encode(c)],
        Opcode::Mult(a, b, c) => seq![10u16, spec_encode(a), spec_encode(b), spec_encode(c)],
        Opcode::Mod(a, b, c) => seq![11u16, spec_encode(a), spec_encode(b), spec_encode(c)],
        Opcode::And(a, b, c) => seq![12u16, spec_encode(a), spec_encode(b), spec_encode(c)],
        Opcode::Or(a, b, c) => seq![13u16, spec_encode(a), spec_encode(b), spec_encode(c)],
        Opcode::Not(a, b) => seq![14u16, spec_encode(a), spec_encode(b)],
        Opcode::Rmem(a, b) => seq![15u16, spec_encode(a), spec_encode(b)],
        Opcode::Wmem(a, b) => seq![16u16, spec_encode(a), spec_encode(b)],
        Opcode::Call(a) => seq![17u16, spec_encode(a)],
        Opcode::Ret => seq![18u16],
        Opcode::Out(a) => seq![19u16, spec_encode(a)],
        Opcode::In(a) => seq![20u16, spec_encode(a)],
        Opcode::Noop => seq![21u16],
    }
}

/// The concatenated word streams of a sequence of instructions.
pub open spec fn spec_assemble_seq(ops: Seq<Opcode>) -> Seq<u16>
    decreases ops.len(),
{
    if ops.len() == 0 {
        Seq::empty()
    } else {
        spec_assemble(ops[0]) + spec_assemble_seq(ops.skip(1))
    }
}

/// Linear disassembly of `words` from offset `ptr`, labelling the
/// instructions with addresses that start at `base`; `None` when any
/// fetched word is not a valid instruction start.
pub open spec fn spec_disassemble(words: Seq<u16>, base: int, ptr: int) -> Option<
    Seq<(usize, Opcode)>,
>
    decreases words.len() - ptr,
{
    if ptr >= words.len() || ptr < 0 {
        Some(Seq::empty())
    } else {
        match spec_fetch(words, ptr) {
            Option::None => None,
            Option::Some(op) => {
                match spec_disassemble(words, base + spec_size(op), ptr + spec_size(op)) {
                    Option::None => None,
                    Option::Some(rest) => Some(seq![(base as usize, op)] + rest),
                }
            },
        }
    }
}

/// Disassembly of exactly `count` instructions starting at address
/// `addr` of `mem`; `None` when any fetch fails.
pub open spec fn spec_disassemble_n(mem: Seq<u16>, addr: int, count: nat) -> Option<
    Seq<(usize, Opcode)>,
>
    decreases count,
{
    if count == 0 {
        Some(Seq::empty())
    } else {
        match spec_fetch(mem, addr) {
            Option::None => None,
            Option::Some(op) => {
                match spec_disassemble_n(mem, addr + spec_size(op), (count - 1) as nat) {
                    Option::None => None,
                    Option::Some(rest) => Some(seq![(addr as usize, op)] + rest),
                }
            },
        }
    }
}

/// The statically known branch-taken targets of an instruction: the jump
/// target of `Jmp`, `Jt`, `Jf` and `Call`, and nothing for the rest.
pub open spec fn spec_next_possible(op: Opcode) -> Seq<Val> {
    match op {
        Opcode::Jmp(a) => seq![a],
        Opcode::Jt(_, b) => seq![b],
        Opcode::Jf(_, b) => seq![b],
        Opcode::Call(a) => seq![a],
        _ => Seq::empty(),
    }
}

impl Opcode {
    /// Branch-taken successor operands of this instruction, excluding
    /// fall-through.
    pub fn next_possible_ip(&self) -> (r: Vec<Val>)
        ensures
            r@ == spec_next_possible(*self),
    {
        match self {
            Opcode::Jmp(a) => vec![*a],
            Opcode::Jt(_, b) => vec![*b],
            Opcode::Jf(_, b) => vec![*b],
            Opcode::Call(a) => vec![*a],
            _ => vec![],
        }
    }

    /// Decode the instruction stored at address `ip` of `memory`.
    pub fn fetch(memory: &[u16], ip: usize) -> (r: Result<Opcode, VmError>)
        ensures
            match r {
                Result::Ok(op) => spec_fetch(memory@, ip as int) == Some(op),
                Result::Err(e) => spec_fetch(memory@, ip as int) is None && e == VmError::Decode,
            },
    {
        if ip >= memory.len() {
            return Err(VmError::Decode);
        }
        let tag = memory[ip];
        if tag > 21 {
            return Err(VmError::Decode);
        }
        let arity = Opcode::arity_of(tag);
        if arity > memory.len() - 1 - ip {
            return Err(VmError::Decode);
        }
        let op = if tag == 0 {
            Opcode::Halt
        } else if tag == 1 {
            Opcode::Assign(Val::new(memory[ip + 1]), Val::new(memory[ip + 2]))
        } else if tag == 2 {
            Opcode::Push(Val::new(memory[ip + 1]))
        } else if tag == 3 {
            Opcode::Pop(Val::new(memory[ip + 1]))
        } else if tag == 4 {
            Opcode::Eq(Val::new(memory[ip + 1]), Val::new(memory[ip + 2]), Val::new(memory[ip + 3]))
        } else if tag == 5 {
            Opcode::Gt(Val::new(memory[ip + 1]), Val::new(memory[ip + 2]), Val::new(memory[ip + 3]))
        } else if tag == 6 {
            Opcode::Jmp(Val::new(memory[ip + 1]))
        } else if tag == 7 {
            Opcode::Jt(Val::new(memory[ip + 1]), Val::new(memory[ip + 2]))
        } else if tag == 8 {
            Opcode::Jf(Val::new(memory[ip + 1]), Val::new(memory[ip + 2]))
        } else if tag == 9 {
            Opcode::Add(
                Val::new(memory[ip + 1]),
                Val::new(memory[ip + 2]),
                Val::new(memory[ip + 3]),
            )
        } else if tag == 10 {
            Opcode::Mult(
                Val::new(memory[ip + 1]),
                Val::new(memory[ip + 2]),
                Val::new(memory[ip + 3]),
            )
        } else if tag == 11 {
            Opcode::Mod(
                Val::new(memory[ip + 1]),
                Val::new(memory[ip + 2]),
                Val::new(memory[ip + 3]),
            )
        } else if tag == 12 {
            Opcode::And(
                Val::new(memory[ip + 1]),
                Val::new(memory[ip + 2]),
                Val::new(memory[ip + 3]),
            )
        } else if tag == 13 {
            Opcode::Or(Val::new(memory[ip + 1]), Val::new(memory[ip + 2]), Val::new(memory[ip + 3]))
        } else if tag == 14 {
            Opcode::Not(Val::new(memory[ip + 1]), Val::new(memory[ip + 2]))
        } else if tag == 15 {
            Opcode::Rmem(Val::new(memory[ip + 1]), Val::new(memory[ip + 2]))
        } else if tag == 16 {
            Opcode::Wmem(Val::new(memory[ip + 1]), Val::new(memory[ip + 2]))
        } else if tag == 17 {
            Opcode::Call(Val::new(memory[ip + 1]))
        } else if tag == 18 {
            Opcode::Ret
        } else if tag == 19 {
            Opcode::Out(Val::new(memory[ip + 1]))
        } else if tag == 20 {
            Opcode::In(Val::new(memory[ip + 1]))
        } else {
            Opcode::Noop
        };
        Ok(op)
    }

    /// Operand count of an opcode tag in `0..=21`.
    pub fn arity_of(tag: u16) -> (a: usize)
        requires
            tag <= 21,
        ensures
            a == spec_arity(tag),
            a <= 3,
    {
        if tag == 0 || tag == 18 || tag == 21 {
            0
        } else if tag == 2 || tag == 3 || tag == 6 || tag == 17 || tag == 19 || tag == 20 {
            1
        } else if tag == 1 || tag == 7 || tag == 8 || tag == 14 || tag == 15 || tag == 16 {
            2
        } else {
            3
        }
    }

    /// Encode this instruction as its word stream.
    pub fn assemble(&self) -> (r: Vec<u16>)
        requires
            wf_op(*self),
        ensures
            r@ == spec_assemble(*self),
            r@.len() == spec_size(*self),
    {
        match self {
            Opcode::Halt => vec![0u16],
            Opcode::Assign(a, b) => vec![1u16, a.as_binary(), b.as_binary()],
            Opcode::Push(a) => vec![2u16, a.as_binary()],
            Opcode::Pop(a) => vec![3u16, a.as_binary()],
            Opcode::Eq(a, b, c) => vec![4u16, a.as_binary(), b.as_binary(), c.as_binary()],
            Opcode::Gt(a, b, c) => vec![5u16, a.as_binary(), b.as_binary(), c.as_binary()],
            Opcode::Jmp(a) => vec![6u16, a.as_binary()],
            Opcode::Jt(a, b) => vec![7u16, a.as_binary(), b.as_binary()],
            Opcode::Jf(a, b) => vec![8u16, a.as_binary(), b.as_binary()],
            Opcode::Add(a, b, c) => vec![9u16, a.as_binary(), b.as_binary(), c.as_binary()],
            Opcode::Mult(a, b, c) => vec![10u16, a.as_binary(), b.as_binary(), c.as_binary()],
            Opcode::Mod(a, b, c) => vec![11u16, a.as_binary(), b.as_binary(), c.as_binary()],
            Opcode::And(a, b, c) => vec![12u16, a.as_binary(), b.as_binary(), c.as_binary()],
            Opcode::Or(a, b, c) => vec![13u16, a.as_binary(), b.as_binary(), c.as_binary()],
            Opcode::Not(a, b) => vec![14u16, a.as_binary(), b.as_binary()],
            Opcode::Rmem(a, b) => vec![15u16, a.as_binary(), b.as_binary()],
            Opcode::Wmem(a, b) => vec![16u16, a.as_binary(), b.as_binary()],
            Opcode::Call(a) => vec![17u16, a.as_binary()],
            Opcode::Ret => vec![18u16],
            Opcode::Out(a) => vec![19u16, a.as_binary()],
            Opcode::In(a) => vec![20u16, a.as_binary()],
            Opcode::Noop => vec![21u16],
        }
    }

    /// Encode a sequence of instructions as one contiguous word stream.
    pub fn assemble_vec(v: &[Opcode]) -> (r: Vec<u16>)
        requires
            forall|i: int| 0 <= i < v@.len() ==> wf_op(v@[i]),
        ensures
            r@ == spec_assemble_seq(v@),
    {
        let mut machine_code: Vec<u16> = Vec::new();
        let mut i: usize = 0;
        proof {
            assert(v@.skip(0) == v@);
            assert(machine_code@ + spec_assemble_seq(v@) =~= spec_assemble_seq(v@));
        }
        while i < v.len()
            invariant
                i <= v@.len(),
                forall|k: int| 0 <= k < v@.len() ==> wf_op(v@[k]),
                machine_code@ + spec_assemble_seq(v@.skip(i as int)) == spec_assemble_seq(v@),
            decreases v@.len() - i,
        {
            let mut part = v[i].assemble();
            proof {
                assert(v@.skip(i as int)[0] == v@[i as int]);
                assert(v@.skip(i as int).skip(1) == v@.skip(i as int + 1));
            }
            machine_code.append(&mut part);
            i = i + 1;
        }
        proof {
            assert(v@.skip(v@.len() as int) == Seq::<Opcode>::empty());
            assert(machine_code@ + Seq::<u16>::empty() == machine_code@);
        }
        machine_code
    }

    /// Linear disassembly of a word stream, labelling instructions with
    /// addresses that start at `start`.
    pub fn disassemble(machine_code: &[u16], start: usize) -> (r: Result<
        Vec<(usize, Opcode)>,
        VmError,
    >)
        requires
            start + machine_code@.len() <= usize::MAX,
        ensures
            match r {
                Result::Ok(instrs) => spec_disassemble(machine_code@, start as int, 0) == Some(
                    instrs@,
                ),
                Result::Err(e) => spec_disassemble(machine_code@, start as int, 0) is None && e
                    == VmError::Decode,
            },
    {
        let mut instructions: Vec<(usize, Opcode)> = Vec::new();
        let mut base: usize = start;
        let mut ptr: usize = 0;
        while ptr < machine_code.len()
            invariant
                start + machine_code@.len() <= usize::MAX,
                ptr <= machine_code@.len(),
                base == start + ptr,
                spec_disassemble(machine_code@, start as int, 0) == (match spec_disassemble(
                    machine_code@,
                    base as int,
                    ptr as int,
                ) {
                    Option::Some(rest) => Some(instructions@ + rest),
                    Option::None => None::<Seq<(usize, Opcode)>>,
                }),
            decreases machine_code@.len() - ptr,
        {
            let instr = match Opcode::fetch(machine_code, ptr) {
                Result::Ok(op) => op,
                Result::Err(e) => {
                    return Err(e);
                },
            };
            let size = instr.size();
            instructions.push((base, instr));
            proof {
                assert(spec_disassemble(machine_code@, base as int, ptr as int) == (
                match spec_disassemble(
                    machine_code@,
                    base as int + spec_size(instr),
                    ptr as int + spec_size(instr),
                ) {
                    Option::Some(rest) => Some(seq![(base as usize, instr)] + rest),
                    Option::None => None::<Seq<(usize, Opcode)>>,
                }));
            }
            base = base + size;
            ptr = ptr + size;
        }
        proof {
            assert(spec_disassemble(machine_code@, base as int, ptr as int) == Some(
                Seq::<(usize, Opcode)>::empty(),
            ));
            assert(instructions@ + Seq::<(usize, Opcode)>::empty() == instructions@);
        }
        Ok(instructions)
    }
}

/// Decoding inverts assembly: the instruction fetched at offset 0 of an
/// assembled in-domain instruction is that instruction, and its word
/// count is the instruction's size.
pub proof fn lemma_fetch_assemble(op: Opcode)
    requires
        wf_op(op),
    ensures
        spec_assemble(op).len() == spec_size(op),
        spec_fetch(spec_assemble(op), 0) == Some(op),
{
    match op {
        Opcode::Halt => {},
        Opcode::Assign(a, b) => {
            lemma_decode_encode(a);
            lemma_decode_encode(b);
        },
        Opcode::Push(a) => lemma_decode_encode(a),
        Opcode::Pop(a) => lemma_decode_encode(a),
        Opcode::Eq(a, b, c) => {
            lemma_decode_encode(a);
            lemma_decode_encode(b);
            lemma_decode_encode(c);
        },
        Opcode::Gt(a, b, c) => {
            lemma_decode_encode(a);
            lemma_decode_encode(b);
            lemma_decode_encode(c);
        },
        Opcode::Jmp(a) => lemma_decode_encode(a),
        Opcode::Jt(a, b) => {
            lemma_decode_encode(a);
            lemma_decode_encode(b);
        },
        Opcode::Jf(a, b) => {
            lemma_decode_encode(a);
            lemma_decode_encode(b);
        },
        Opcode::Add(a, b, c) => {
            lemma_decode_encode(a);
            lemma_decode_encode(b);
            lemma_decode_encode(c);
        },
        Opcode::Mult(a, b, c) => {
            lemma_decode_encode(a);
            lemma_decode_encode(b);
            lemma_decode_encode(c);
        },
        Opcode::Mod(a, b, c) => {
            lemma_decode_encode(a);
            lemma_decode_encode(b);
            lemma_decode_encode(c);
        },
        Opcode::And(a, b, c) => {
            lemma_decode_encode(a);
            lemma_decode_encode(b);
            lemma_decode_encode(c);
        },
        Opcode::Or(a, b, c) => {
            lemma_decode_encode(a);
            lemma_decode_encode(b);
            lemma_decode_encode(c);
        },
        Opcode::Not(a, b) => {
            lemma_decode_encode(a);
            lemma_decode_encode(b);
        },
        Opcode::Rmem(a, b) => {
            lemma_decode_encode(a);
            lemma_decode_encode(b);
        },
        Opcode::Wmem(a, b) => {
            lemma_decode_encode(a);
            lemma_decode_encode(b);
        },
        Opcode::Call(a) => lemma_decode_encode(a),
        Opcode::Ret => {},
        Opcode::Out(a) => lemma_decode_encode(a),
        Opcode::In(a) => lemma_decode_encode(a),
        Opcode::Noop => {},
    }
}

/// The 16-bit words a little-endian byte stream encodes: each pair of
/// bytes, low byte first, becomes one word.
pub open spec fn spec_le_words(bytes: Seq<u8>) -> Seq<u16> {
    Seq::new(bytes.len() / 2, |i: int| (bytes[2 * i] + 256 * bytes[2 * i + 1]) as u16)
}

/// Decode a program image from its little-endian byte stream, two bytes
/// per word, low byte first.
pub fn words_from_le_bytes(bytes: &[u8]) -> (r: Vec<u16>)
    requires
        bytes@.len() % 2 == 0,
    ensures
        r@ == spec_le_words(bytes@),
{
    let mut words: Vec<u16> = Vec::new();
    let mut i: usize = 0;
    while i + 1 < bytes.len()
        invariant
            bytes@.len() % 2 == 0,
            i % 2 == 0,
            i <= bytes@.len(),
            words@ == spec_le_words(bytes@).take(i as int / 2),
        decreases bytes@.len() - i,
    {
        let lo = bytes[i];
        let hi = bytes[i + 1];
        let w: u16 = (lo as u16) + 256 * (hi as u16);
        words.push(w);
        proof {
            assert(spec_le_words(bytes@)[i as int / 2] == w);
            assert(spec_le_words(bytes@).take(i as int / 2).push(w) =~= spec_le_words(
                bytes@,
            ).take((i + 2) as int / 2));
        }
        i = i + 2;
    }
    proof {
        assert(spec_le_words(bytes@).take(bytes@.len() as int / 2) =~= spec_le_words(bytes@));
    }
    words
}

/// Whatever fetch decodes has all its operands in the machine's domain.
pub proof fn lemma_fetch_wf(mem: Seq<u16>, ip: int)
    ensures
        match spec_fetch(mem, ip) {
            Option::Some(op) => wf_op(op),
            Option::None => true,
        },
{
    if 0 <= ip < mem.len() {
        lemma_decode_wf(mem[ip + 1]);
        lemma_decode_wf(mem[ip + 2]);
        lemma_decode_wf(mem[ip + 3]);
    }
}

/// Instructions labelled with the addresses they occupy when laid out
/// contiguously from `base`: an arithmetic progression by each
/// instruction's size.
pub open spec fn spec_addressed(ops: Seq<Opcode>, base: int) -> Seq<(usize, Opcode)>
    decreases ops.len(),
{
    if ops.len() == 0 {
        Seq::empty()
    } else {
        seq![(base as usize, ops[0])] + spec_addressed(ops.skip(1), base + spec_size(ops[0]))
    }
}

/// Fetching at offset 0 reads only the first instruction's words, so a
/// suffix appended after them does not change what is fetched.
pub proof fn lemma_fetch_prefix(s1: Seq<u16>, s2: Seq<u16>, op: Opcode)
    requires
        spec_fetch(s1, 0) == Some(op),
        s1.len() == spec_size(op),
    ensures
        spec_fetch(s1 + s2, 0) == Some(op),
{
    assert((s1 + s2)[0] == s1[0]);
    if s1.len() > 1 {
        assert((s1 + s2)[1] == s1[1]);
    }
    if s1.len() > 2 {
        assert((s1 + s2)[2] == s1[2]);
    }
    if s1.len() > 3 {
        assert((s1 + s2)[3] == s1[3]);
    }
}

/// Fetching past a prefix is fetching in the suffix at the shifted offset.
pub proof fn lemma_fetch_shift(s1: Seq<u16>, s2: Seq<u16>, ip: int)
    requires
        s1.len() <= ip,
    ensures
        spec_fetch(s1 + s2, ip) == spec_fetch(s2, ip - s1.len()),
{
    let j = ip - s1.len();
    if 0 <= j && j < s2.len() {
        assert((s1 + s2)[ip] == s2[j]);
        if ip + 1 < s1.len() + s2.len() {
            assert((s1 + s2)[ip + 1] == s2[j + 1]);
        }
        if ip + 2 < s1.len() + s2.len() {
            assert((s1 + s2)[ip + 2] == s2[j + 2]);
        }
        if ip + 3 < s1.len() + s2.len() {
            assert((s1 + s2)[ip + 3] == s2[j + 3]);
        }
    }
}

/// Disassembling past a prefix is disassembling the suffix at the
/// shifted offset.
pub proof fn lemma_disassemble_shift(s1: Seq<u16>, s2: Seq<u16>, base: int, ptr: int)
    requires
        s1.len() <= ptr,
    ensures
        spec_disassemble(s1 + s2, base, ptr) == spec_disassemble(s2, base, ptr - s1.len()),
    decreases s1.len() + s2.len() - ptr + 1,
{
    lemma_fetch_shift(s1, s2, ptr);
    if ptr < (s1 + s2).len() {
        match spec_fetch(s1 + s2, ptr) {
            Option::None => {},
            Option::Some(op) => {
                lemma_disassemble_shift(s1, s2, base + spec_size(op), ptr + spec_size(op));
            },
        }
    }
}

/// Linear disassembly inverts sequence assembly: disassembling the
/// assembled words of in-domain instructions from any base address
/// reproduces the instructions, labelled with addresses that advance by
/// each instruction's size.
pub proof fn lemma_disassemble_assemble(ops: Seq<Opcode>, base: int)
    requires
        forall|i: int| 0 <= i < ops.len() ==> wf_op(#[trigger] ops[i]),
        0 <= base,
        base + spec_assemble_seq(ops).len() <= usize::MAX,
    ensures
        spec_disassemble(spec_assemble_seq(ops), base, 0) == Some(spec_addressed(ops, base)),
    decreases ops.len(),
{
    if ops.len() == 0 {
    } else {
        let op = ops[0];
        let s1 = spec_assemble(op);
        let s2 = spec_assemble_seq(ops.skip(1));
        assert(spec_assemble_seq(ops) == s1 + s2);
        lemma_fetch_assemble(op);
        lemma_fetch_prefix(s1, s2, op);
        lemma_disassemble_shift(s1, s2, base + spec_size(op), spec_size(op));
        assert(forall|i: int|
            0 <= i < ops.skip(1).len() ==> wf_op(#[trigger] ops.skip(1)[i]));
        lemma_disassemble_assemble(ops.skip(1), base + spec_size(op));
        assert(spec_addressed(ops, base) == seq![(base as usize, op)] + spec_addressed(
            ops.skip(1),
            base + spec_size(op),
        ));
    }
}

} // verus!
