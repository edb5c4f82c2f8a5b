//! The static analyzer: discovered functions as value objects, and the
//! control-flow extractor that lifts the instructions reachable from an
//! entry address out of a memory image.

use vstd::prelude::*;

use crate::assembly::{
    lemma_fetch_wf, spec_fetch, spec_next_possible, spec_size, wf_op, Opcode, Val,
};
use crate::emulator::Vm;
use crate::errors::VmError;

verus! {

/// The address of the `i`-th instruction of a contiguous run of
/// instructions laid out from `start`.
pub open spec fn fn_addr(start: int, code: Seq<Opcode>, i: int) -> int
    decreases i,
{
    if i <= 0 {
        start
    } else {
        fn_addr(start, code, i - 1) + spec_size(code[i - 1])
    }
}

/// Layout addresses only grow along a run of instructions.
proof fn lemma_fn_addr_monotone(start: int, code: Seq<Opcode>, i: int, j: int)
    requires
        0 <= i <= j,
    ensures
        fn_addr(start, code, i) <= fn_addr(start, code, j),
    decreases j - i,
{
    if i < j {
        lemma_fn_addr_monotone(start, code, i, j - 1);
    }
}

/// A discovered function: a non-empty run of in-domain instructions
/// whose assembled words exactly cover the address range
/// `[start, end + size(last))`, with `end` the address of the last
/// instruction.
#[derive(Debug, PartialEq, Eq, Hash)]
pub struct Function {
    /// Address of the first instruction.
    pub start: usize,
    /// Address of the last instruction.
    pub end: usize,
    /// The instructions, in address order; kept consistent with the
    /// range by the constructors.
    pub code: Vec<Opcode>,
}

impl Function {
    /// The instructions, in address order.
    pub open spec fn spec_code(self) -> Seq<Opcode> {
        self.code@
    }

    /// The structural invariant of a discovered function.
    pub open spec fn wf(self) -> bool {
        &&& self.spec_code().len() > 0
        &&& forall|i: int| 0 <= i < self.spec_code().len() ==> wf_op(#[trigger] self.spec_code()[i])
        &&& self.end as int == fn_addr(
            self.start as int,
            self.spec_code(),
            self.spec_code().len() - 1,
        )
        &&& self.start <= self.end
    }

    /// Build a function from its address range and instructions; a
    /// sequence whose layout does not end exactly at `end` — and only
    /// such a sequence — is refused.
    pub fn new(start: usize, end: usize, code: &[Opcode]) -> (r: Result<Function, VmError>)
        requires
            forall|i: int| 0 <= i < code@.len() ==> wf_op(#[trigger] code@[i]),
            code@.len() <= 32768,
            end <= 65536,
        ensures
            match r {
                Result::Ok(f) => f.start == start && f.end == end && f.spec_code() == code@ && f.wf(),
                Result::Err(e) => e == VmError::GappedFunction,
            },
            r is Err <==> !(code@.len() > 0 && start <= end && end as int == fn_addr(
                start as int,
                code@,
                code@.len() - 1,
            )),
    {
        if code.len() == 0 || end < start {
            proof {
                if code@.len() > 0 {
                    lemma_fn_addr_monotone(start as int, code@, 0, code@.len() - 1);
                }
            }
            return Err(VmError::GappedFunction);
        }
        let mut addr: usize = start;
        let mut i: usize = 0;
        while i < code.len() - 1
            invariant
                code@.len() > 0,
                forall|k: int| 0 <= k < code@.len() ==> wf_op(#[trigger] code@[k]),
                code@.len() <= 32768,
                end <= 65536,
                start <= addr,
                i < code@.len(),
                addr as int == fn_addr(start as int, code@, i as int),
                addr <= start + 4 * i,
            decreases code@.len() - i,
        {
            if addr >= 131072 {
                proof {
                    lemma_fn_addr_monotone(start as int, code@, i as int, code@.len() - 1);
                }
                return Err(VmError::GappedFunction);
            }
            let size = code[i].size();
            addr = addr + size;
            i = i + 1;
        }
        if addr == end {
            let mut copied: Vec<Opcode> = Vec::new();
            let mut j: usize = 0;
            while j < code.len()
                invariant
                    j <= code@.len(),
                    copied@ == code@.take(j as int),
                decreases code@.len() - j,
            {
                copied.push(code[j]);
                proof {
                    assert(code@.take(j as int).push(code@[j as int]) =~= code@.take(j + 1));
                }
                j = j + 1;
            }
            proof {
                assert(code@.take(code@.len() as int) =~= code@);
            }
            Ok(Function { start, end, code: copied })
        } else {
            Err(VmError::GappedFunction)
        }
    }

    /// The instructions, in address order.
    pub fn get_code(&self) -> (r: &Vec<Opcode>)
        ensures
            r@ == self.spec_code(),
    {
        &self.code
    }

    /// Whether this function's address range encloses the other's.
    pub fn contains(&self, other: &Self) -> (r: bool)
        ensures
            r == (self.start <= other.start && self.end >= other.end),
    {
        self.start <= other.start && self.end >= other.end
    }

    /// Of two functions, the one whose range encloses the other — the
    /// second when neither encloses.
    pub fn merge_biggest<'a>(&'a self, other: &'a Self) -> (r: &'a Self)
        ensures
            r == if self.start <= other.start && self.end >= other.end {
                self
            } else {
                other
            },
    {
        if self.contains(other) {
            self
        } else {
            other
        }
    }
}

impl Clone for Function {
    /// A copy with the same range and instructions.
    fn clone(&self) -> (r: Self)
        ensures
            r.start == self.start,
            r.end == self.end,
            r.spec_code() == self.spec_code(),
    {
        Function {
            start: self.start,
            end: self.end,
            code: crate::emulator::copy_items(&self.code),
        }
    }
}

/// Whether some entry of the worklist result set already carries this
/// address.
fn has_addr(v: &Vec<(usize, Opcode)>, addr: usize) -> (r: bool)
    ensures
        r == exists|i: int| 0 <= i < v@.len() && (#[trigger] v@[i]).0 == addr,
{
    let mut i: usize = 0;
    while i < v.len()
        invariant
            i <= v@.len(),
            forall|j: int| 0 <= j < i ==> (#[trigger] v@[j]).0 != addr,
        decreases v@.len() - i,
    {
        if v[i].0 == addr {
            return true;
        }
        i = i + 1;
    }
    false
}

/// Address-sortedness of a discovery set: strictly increasing.
pub open spec fn addr_sorted(s: Seq<(usize, Opcode)>) -> bool {
    forall|i: int, j: int| 0 <= i < j < s.len() ==> (#[trigger] s[i]).0 < (#[trigger] s[j]).0
}

/// Whether some entry of a discovery set lies at address `a`.
pub open spec fn addr_in(s: Seq<(usize, Opcode)>, a: int) -> bool {
    exists|j: int| 0 <= j < s.len() && (#[trigger] s[j]).0 == a
}

/// Whether every successor the extractor follows out of an instruction
/// at `a` — nothing after `Halt` and `Ret`, the fall-through only
/// after `Call`, fall-through plus immediate branch targets otherwise —
/// lies in the set or is still queued.
pub open spec fn succ_covered(s: Seq<(usize, Opcode)>, q: Seq<usize>, a: int, op: Opcode) -> bool {
    match op {
        Opcode::Halt => true,
        Opcode::Ret => true,
        Opcode::Call(_) => addr_in(s, a + spec_size(op)) || q.contains((a + spec_size(op)) as usize),
        _ => (addr_in(s, a + spec_size(op)) || q.contains((a + spec_size(op)) as usize)) && (forall|
            k: int,
        |
            0 <= k < spec_next_possible(op).len() ==> (match #[trigger] spec_next_possible(op)[k] {
                Val::Num(t) => addr_in(s, t as int) || q.contains(t as usize),
                _ => true,
            })),
    }
}

impl Function {
    /// Whether some instruction of this function lies at address `a`.
    pub open spec fn spec_has_addr(self, a: int) -> bool {
        exists|j: int|
            0 <= j < self.spec_code().len() && fn_addr(self.start as int, self.spec_code(), j) == a
    }

    /// Whether every successor the extractor follows out of the `i`-th
    /// instruction lies at a member address.
    pub open spec fn succ_closed_at(self, i: int) -> bool {
        match self.spec_code()[i] {
            Opcode::Halt => true,
            Opcode::Ret => true,
            Opcode::Call(_) => self.spec_has_addr(
                fn_addr(self.start as int, self.spec_code(), i) + spec_size(self.spec_code()[i]),
            ),
            _ => self.spec_has_addr(
                fn_addr(self.start as int, self.spec_code(), i) + spec_size(self.spec_code()[i]),
            ) && (forall|k: int|
                0 <= k < spec_next_possible(self.spec_code()[i]).len() ==> (
                match #[trigger] spec_next_possible(self.spec_code()[i])[k] {
                    Val::Num(t) => self.spec_has_addr(t as int),
                    _ => true,
                })),
        }
    }

    /// Closure of a discovered function: every successor the extractor
    /// follows out of a member instruction lies at a member address.
    pub open spec fn spec_closed(self) -> bool {
        forall|i: int| 0 <= i < self.spec_code().len() ==> #[trigger] self.succ_closed_at(i)
    }
}

/// A pushed list still holds every element it held.
proof fn lemma_push_contains(q: Seq<usize>, v: usize, x: usize)
    requires
        q.contains(x),
    ensures
        q.push(v).contains(x),
{
    let k = choose|k: int| 0 <= k < q.len() && q[k] == x;
    assert(q.push(v)[k] == x);
}

/// A popped list still holds every element but the popped one.
proof fn lemma_drop_last_contains(q: Seq<usize>, x: usize)
    requires
        q.contains(x),
        q.len() > 0,
        x != q.last(),
    ensures
        q.drop_last().contains(x),
{
    let k = choose|k: int| 0 <= k < q.len() && q[k] == x;
    assert(k < q.len() - 1);
    assert(q.drop_last()[k] == x);
}

/// Growing a discovery set keeps every address it covered.
proof fn lemma_addr_in_preserved(pre: Seq<(usize, Opcode)>, post: Seq<(usize, Opcode)>, a: int)
    requires
        addr_in(pre, a),
        forall|y: (usize, Opcode)| pre.contains(y) ==> post.contains(y),
    ensures
        addr_in(post, a),
{
    let j = choose|j: int| 0 <= j < pre.len() && (#[trigger] pre[j]).0 == a;
    assert(pre.contains(pre[j]));
    assert(post.contains(pre[j]));
    let k = choose|k: int| 0 <= k < post.len() && post[k] == pre[j];
    assert((post[k]).0 == a);
}

/// Insert an instruction into an address-sorted set at its place.
fn insert_sorted(v: &mut Vec<(usize, Opcode)>, addr: usize, op: Opcode)
    requires
        addr_sorted(old(v)@),
        !exists|i: int| 0 <= i < old(v)@.len() && (#[trigger] old(v)@[i]).0 == addr,
    ensures
        addr_sorted(final(v)@),
        final(v)@.len() == old(v)@.len() + 1,
        forall|x: (usize, Opcode)|
            final(v)@.contains(x) <==> (old(v)@.contains(x) || x == (addr, op)),
        final(v)@.contains((addr, op)),
        forall|i: int|
            0 <= i < final(v)@.len() ==> old(v)@.contains(#[trigger] final(v)@[i]) || final(v)@[i]
                == (addr, op),
{
    let mut p: usize = 0;
    while p < v.len() && v[p].0 < addr
        invariant
            p <= v@.len(),
            forall|j: int| 0 <= j < p ==> (#[trigger] v@[j]).0 < addr,
            v@ == old(v)@,
        decreases v@.len() - p,
    {
        p = p + 1;
    }
    v.insert(p, (addr, op));
    proof {
        let s0 = old(v)@;
        let s1 = v@;
        assert(s1 == s0.insert(p as int, (addr, op)));
        assert forall|i: int, j: int| 0 <= i < j < s1.len() implies (#[trigger] s1[i]).0 < (
        #[trigger] s1[j]).0 by {
            if i < p && j < p {
                assert(s1[i] == s0[i] && s1[j] == s0[j]);
            } else if i < p && j == p {
                assert(s1[i] == s0[i]);
            } else if i < p && j > p {
                assert(s1[i] == s0[i] && s1[j] == s0[j - 1]);
                assert(s0[p as int].0 != addr);
                assert(s0[j - 1].0 >= s0[p as int].0);
            } else if i == p && j > p {
                assert(s1[j] == s0[j - 1]);
                assert(s0[j - 1].0 >= s0[p as int].0);
                assert(s0[p as int].0 != addr);
                assert(p < s0.len() ==> s0[p as int].0 >= addr);
            } else {
                assert(s1[i] == s0[i - 1] && s1[j] == s0[j - 1]);
            }
        }
        assert forall|x: (usize, Opcode)| final(v)@.contains(x) <==> (old(v)@.contains(x) || x
            == (addr, op)) by {
            if s1.contains(x) {
                let i = choose|i: int| 0 <= i < s1.len() && s1[i] == x;
                if i < p {
                    assert(s0[i] == x);
                } else if i == p {
                } else {
                    assert(s0[i - 1] == x);
                }
            }
            if s0.contains(x) {
                let i = choose|i: int| 0 <= i < s0.len() && s0[i] == x;
                if i < p {
                    assert(s1[i] == x);
                } else {
                    assert(s1[i + 1] == x);
                }
            }
            if x == (addr, op) {
                assert(s1[p as int] == x);
            }
        }
        assert(s1[p as int] == (addr, op));
        assert(s1.contains((addr, op)));
        assert forall|i: int| 0 <= i < s1.len() implies s0.contains(#[trigger] s1[i]) || s1[i]
            == (addr, op) by {
            if i < p {
                assert(s1[i] == s0[i]);
            } else if i > p {
                assert(s1[i] == s0[i - 1]);
            }
        }
    }
}

/// Enqueue the statically known successors of an instruction: nothing
/// after `Halt` and `Ret`, only the fall-through after `Call` (call
/// edges are not followed), and the fall-through plus any immediate
/// branch targets otherwise; register-valued targets are unknowable and
/// skipped.  Everything already queued stays queued.
fn push_successors(queue: &mut Vec<usize>, ip: usize, size: usize, instr: &Opcode)
    requires
        ip + size <= 32768,
        size == spec_size(*instr),
    ensures
        forall|x: usize| old(queue)@.contains(x) ==> final(queue)@.contains(x),
        match *instr {
            Opcode::Halt => true,
            Opcode::Ret => true,
            Opcode::Call(_) => final(queue)@.contains((ip + size) as usize),
            _ => final(queue)@.contains((ip + size) as usize) && (forall|k: int|
                0 <= k < spec_next_possible(*instr).len() ==> (
                match #[trigger] spec_next_possible(*instr)[k] {
                    Val::Num(t) => final(queue)@.contains(t as usize),
                    _ => true,
                })),
        },
{
    match instr {
        Opcode::Halt => {},
        Opcode::Ret => {},
        Opcode::Call(_) => {
            let ghost qh = queue@;
            queue.push(ip + size);
            proof {
                assert(queue@[queue@.len() - 1] == (ip + size) as usize);
                assert(queue@.contains((ip + size) as usize));
                assert forall|x: usize| qh.contains(x) implies queue@.contains(x) by {
                    lemma_push_contains(qh, (ip + size) as usize, x);
                }
            }
        },
        _ => {
            let targets = instr.next_possible_ip();
            let mut t: usize = 0;
            while t < targets.len()
                invariant
                    t <= targets@.len(),
                    targets@ == spec_next_possible(*instr),
                    forall|x: usize| old(queue)@.contains(x) ==> queue@.contains(x),
                    forall|k: int|
                        0 <= k < t ==> (match #[trigger] targets@[k] {
                            Val::Num(tv) => queue@.contains(tv as usize),
                            _ => true,
                        }),
                decreases targets@.len() - t,
            {
                match targets[t] {
                    Val::Num(x) => {
                        let ghost qh = queue@;
                        queue.push(x as usize);
                        proof {
                            assert(queue@[queue@.len() - 1] == x as usize);
                            assert(queue@.contains(x as usize));
                            assert forall|y: usize| qh.contains(y) implies queue@.contains(y) by {
                                lemma_push_contains(qh, x as usize, y);
                            }
                            assert forall|k: int| 0 <= k < t + 1 implies (
                            match #[trigger] targets@[k] {
                                Val::Num(tv) => queue@.contains(tv as usize),
                                _ => true,
                            }) by {
                                if k < t {
                                    match targets@[k] {
                                        Val::Num(tv) => {
                                            assert(qh.contains(tv as usize));
                                            lemma_push_contains(qh, x as usize, tv as usize);
                                        },
                                        _ => {},
                                    }
                                }
                            }
                        }
                    },
                    Val::Reg(_) => {},
                    Val::Invalid => {},
                }
                t = t + 1;
            }
            let ghost qh = queue@;
            queue.push(ip + size);
            proof {
                assert(queue@[queue@.len() - 1] == (ip + size) as usize);
                assert(queue@.contains((ip + size) as usize));
                assert forall|x: usize| qh.contains(x) implies queue@.contains(x) by {
                    lemma_push_contains(qh, (ip + size) as usize, x);
                }
                assert forall|k: int|
                    0 <= k < spec_next_possible(*instr).len() implies (
                match #[trigger] spec_next_possible(*instr)[k] {
                    Val::Num(tv) => queue@.contains(tv as usize),
                    _ => true,
                }) by {
                    match spec_next_possible(*instr)[k] {
                        Val::Num(tv) => {
                            assert(qh.contains(tv as usize));
                            lemma_push_contains(qh, (ip + size) as usize, tv as usize);
                        },
                        _ => {},
                    }
                }
            }
        },
    }
}

/// Check that a sorted discovery set tiles a contiguous address range:
/// each instruction ends exactly where the next begins.
fn check_contiguous(instructions: &Vec<(usize, Opcode)>) -> (r: bool)
    requires
        forall|k: int|
            0 <= k < instructions@.len() ==> (#[trigger] instructions@[k]).0 + spec_size(
                instructions@[k].1,
            ) <= 32768,
    ensures
        r == forall|k: int|
            0 <= k < instructions@.len() - 1 ==> (#[trigger] instructions@[k]).0 + spec_size(
                instructions@[k].1,
            ) == instructions@[k + 1].0,
{
    let n = instructions.len();
    if n == 0 {
        return true;
    }
    let mut i: usize = 0;
    while i < n - 1
        invariant
            n == instructions@.len(),
            n >= 1,
            forall|k: int|
                0 <= k < instructions@.len() ==> (#[trigger] instructions@[k]).0 + spec_size(
                    instructions@[k].1,
                ) <= 32768,
            i <= instructions@.len(),
            forall|k: int|
                0 <= k < i ==> (#[trigger] instructions@[k]).0 + spec_size(instructions@[k].1)
                    == instructions@[k + 1].0,
        decreases instructions@.len() - i,
    {
        let size = instructions[i].1.size();
        if instructions[i].0 + size != instructions[i + 1].0 {
            return false;
        }
        i = i + 1;
    }
    true
}

/// The instruction column of a discovery set.
fn codes_of(instructions: &Vec<(usize, Opcode)>) -> (r: Vec<Opcode>)
    ensures
        r@ == instructions@.map_values(|x: (usize, Opcode)| x.1),
{
    let mut code: Vec<Opcode> = Vec::new();
    let mut j: usize = 0;
    while j < instructions.len()
        invariant
            j <= instructions@.len(),
            code@ == instructions@.take(j as int).map_values(|x: (usize, Opcode)| x.1),
        decreases instructions@.len() - j,
    {
        code.push(instructions[j].1);
        proof {
            assert(instructions@.take(j + 1).map_values(|x: (usize, Opcode)| x.1)
                =~= instructions@.take(j as int).map_values(|x: (usize, Opcode)| x.1).push(
                instructions@[j as int].1,
            ));
        }
        j = j + 1;
    }
    proof {
        assert(instructions@.take(instructions@.len() as int) =~= instructions@);
    }
    code
}

/// One covered successor stays covered when the popped address is
/// already in the set.
proof fn lemma_covered_value_after_pop(
    s: Seq<(usize, Opcode)>,
    pre_q: Seq<usize>,
    post_q: Seq<usize>,
    ip: usize,
    xi: int,
)
    requires
        pre_q.len() > 0,
        ip == pre_q.last(),
        post_q == pre_q.drop_last(),
        addr_in(s, ip as int),
        0 <= xi <= usize::MAX,
        addr_in(s, xi) || pre_q.contains(xi as usize),
    ensures
        addr_in(s, xi) || post_q.contains(xi as usize),
{
    if !addr_in(s, xi) {
        let x = xi as usize;
        if x == ip {
            assert(xi == ip as int);
        } else {
            lemma_drop_last_contains(pre_q, x);
        }
    }
}

/// Skipping an already-discovered queued address keeps every successor
/// of every member covered.
proof fn lemma_covered_after_pop(
    s: Seq<(usize, Opcode)>,
    pre_q: Seq<usize>,
    post_q: Seq<usize>,
    ip: usize,
)
    requires
        pre_q.len() > 0,
        ip == pre_q.last(),
        post_q == pre_q.drop_last(),
        addr_in(s, ip as int),
        forall|i: int|
            0 <= i < s.len() ==> (#[trigger] s[i]).0 + spec_size(s[i].1) <= 32768,
        forall|i: int|
            0 <= i < s.len() ==> succ_covered(s, pre_q, (#[trigger] s[i]).0 as int, s[i].1),
    ensures
        forall|i: int|
            0 <= i < s.len() ==> succ_covered(s, post_q, (#[trigger] s[i]).0 as int, s[i].1),
{
    assert forall|i: int|
        0 <= i < s.len() implies succ_covered(s, post_q, (#[trigger] s[i]).0 as int, s[i].1) by {
        let a = s[i].0 as int;
        let op = s[i].1;
        assert(succ_covered(s, pre_q, a, op));
        match op {
            Opcode::Halt => {},
            Opcode::Ret => {},
            Opcode::Call(_) => {
                lemma_covered_value_after_pop(s, pre_q, post_q, ip, a + spec_size(op));
            },
            _ => {
                lemma_covered_value_after_pop(s, pre_q, post_q, ip, a + spec_size(op));
                assert forall|k: int|
                    0 <= k < spec_next_possible(op).len() implies (
                match #[trigger] spec_next_possible(op)[k] {
                    Val::Num(t) => addr_in(s, t as int) || post_q.contains(t as usize),
                    _ => true,
                }) by {
                    match spec_next_possible(op)[k] {
                        Val::Num(t) => {
                            lemma_covered_value_after_pop(s, pre_q, post_q, ip, t as int);
                        },
                        _ => {},
                    }
                }
            },
        }
    }
}

/// One covered successor stays covered across inserting the popped
/// address into the set and enqueueing its own successors.
proof fn lemma_covered_value_after_insert(
    pre: Seq<(usize, Opcode)>,
    post: Seq<(usize, Opcode)>,
    pre_q: Seq<usize>,
    mid_q: Seq<usize>,
    post_q: Seq<usize>,
    ip: usize,
    xi: int,
)
    requires
        pre_q.len() > 0,
        ip == pre_q.last(),
        mid_q == pre_q.drop_last(),
        forall|y: (usize, Opcode)| pre.contains(y) ==> post.contains(y),
        addr_in(post, ip as int),
        forall|x: usize| mid_q.contains(x) ==> post_q.contains(x),
        0 <= xi <= usize::MAX,
        addr_in(pre, xi) || pre_q.contains(xi as usize),
    ensures
        addr_in(post, xi) || post_q.contains(xi as usize),
{
    if addr_in(pre, xi) {
        lemma_addr_in_preserved(pre, post, xi);
    } else {
        let x = xi as usize;
        if x == ip {
            assert(xi == ip as int);
        } else {
            lemma_drop_last_contains(pre_q, x);
        }
    }
}

/// Processing a popped address — inserting its instruction and
/// enqueueing that instruction's successors — keeps every successor of
/// every member covered.
proof fn lemma_covered_after_insert(
    pre: Seq<(usize, Opcode)>,
    post: Seq<(usize, Opcode)>,
    pre_q: Seq<usize>,
    mid_q: Seq<usize>,
    post_q: Seq<usize>,
    ip: usize,
    instr: Opcode,
)
    requires
        pre_q.len() > 0,
        ip == pre_q.last(),
        mid_q == pre_q.drop_last(),
        forall|y: (usize, Opcode)| pre.contains(y) ==> post.contains(y),
        post.contains((ip, instr)),
        forall|i: int|
            0 <= i < post.len() ==> pre.contains(#[trigger] post[i]) || post[i] == (ip, instr),
        forall|x: usize| mid_q.contains(x) ==> post_q.contains(x),
        match instr {
            Opcode::Halt => true,
            Opcode::Ret => true,
            Opcode::Call(_) => post_q.contains((ip + spec_size(instr)) as usize),
            _ => post_q.contains((ip + spec_size(instr)) as usize) && (forall|k: int|
                0 <= k < spec_next_possible(instr).len() ==> (
                match #[trigger] spec_next_possible(instr)[k] {
                    Val::Num(t) => post_q.contains(t as usize),
                    _ => true,
                })),
        },
        forall|i: int|
            0 <= i < pre.len() ==> (#[trigger] pre[i]).0 + spec_size(pre[i].1) <= 32768,
        ip + spec_size(instr) <= 32768,
        forall|i: int|
            0 <= i < pre.len() ==> succ_covered(pre, pre_q, (#[trigger] pre[i]).0 as int, pre[i].1),
    ensures
        forall|i: int|
            0 <= i < post.len() ==> succ_covered(
                post,
                post_q,
                (#[trigger] post[i]).0 as int,
                post[i].1,
            ),
{
    assert(addr_in(post, ip as int)) by {
        let k = choose|k: int| 0 <= k < post.len() && post[k] == (ip, instr);
        assert((post[k]).0 == ip);
    }
    assert forall|i: int|
        0 <= i < post.len() implies succ_covered(
        post,
        post_q,
        (#[trigger] post[i]).0 as int,
        post[i].1,
    ) by {
        let a = post[i].0 as int;
        let op = post[i].1;
        if post[i] == (ip, instr) {
            match op {
                Opcode::Halt => {},
                Opcode::Ret => {},
                Opcode::Call(_) => {},
                _ => {},
            }
        } else {
            assert(pre.contains(post[i]));
            let j = choose|j: int| 0 <= j < pre.len() && pre[j] == post[i];
            assert(succ_covered(pre, pre_q, a, op));
            assert(pre[j].0 + spec_size(pre[j].1) <= 32768);
            match op {
                Opcode::Halt => {},
                Opcode::Ret => {},
                Opcode::Call(_) => {
                    lemma_covered_value_after_insert(
                        pre,
                        post,
                        pre_q,
                        mid_q,
                        post_q,
                        ip,
                        a + spec_size(op),
                    );
                },
                _ => {
                    lemma_covered_value_after_insert(
                        pre,
                        post,
                        pre_q,
                        mid_q,
                        post_q,
                        ip,
                        a + spec_size(op),
                    );
                    assert forall|k: int|
                        0 <= k < spec_next_possible(op).len() implies (
                    match #[trigger] spec_next_possible(op)[k] {
                        Val::Num(t) => addr_in(post, t as int) || post_q.contains(t as usize),
                        _ => true,
                    }) by {
                        match spec_next_possible(op)[k] {
                            Val::Num(t) => {
                                lemma_covered_value_after_insert(
                                    pre,
                                    post,
                                    pre_q,
                                    mid_q,
                                    post_q,
                                    ip,
                                    t as int,
                                );
                            },
                            _ => {},
                        }
                    }
                },
            }
        }
    }
}

/// An address covered by the discovery set is a member address of the
/// function built from it.
proof fn lemma_member_addr(f: Function, s: Seq<(usize, Opcode)>, a: int)
    requires
        addr_in(s, a),
        f.spec_code().len() == s.len(),
        forall|k: int|
            0 <= k < s.len() ==> fn_addr(f.start as int, f.spec_code(), k) == (#[trigger] s[
                k
            ]).0 as int,
    ensures
        f.spec_has_addr(a),
{
    let j = choose|j: int| 0 <= j < s.len() && (#[trigger] s[j]).0 == a;
    assert(fn_addr(f.start as int, f.spec_code(), j) == a);
}

impl Vm {
    /// The worklist phase of function discovery: the instructions
    /// reachable from `starting_ip`, sorted by address, each decoding
    /// from memory at its address.
    fn collect_reachable(&self, starting_ip: usize) -> (r: Result<Vec<(usize, Opcode)>, VmError>)
        requires
            self.inv(),
        ensures
            match r {
                Result::Ok(instrs) => {
                    &&& addr_sorted(instrs@)
                    &&& instrs@.len() > 0
                    &&& forall|i: int|
                        0 <= i < instrs@.len() ==> spec_fetch(
                            self@.memory,
                            (#[trigger] instrs@[i]).0 as int,
                        ) == Some(instrs@[i].1) && instrs@[i].0 + spec_size(instrs@[i].1) <= 32768
                    &&& exists|i: int|
                        0 <= i < instrs@.len() && (#[trigger] instrs@[i]).0 == starting_ip
                    &&& forall|i: int|
                        0 <= i < instrs@.len() ==> succ_covered(
                            instrs@,
                            Seq::<usize>::empty(),
                            (#[trigger] instrs@[i]).0 as int,
                            instrs@[i].1,
                        )
                },
                Result::Err(e) => e == VmError::Decode || e == VmError::StepLimit,
            },
    {
        let mut instructions: Vec<(usize, Opcode)> = Vec::new();
        let mut queue: Vec<usize> = Vec::new();
        let first = match self.fetch(starting_ip) {
            Result::Ok(op) => op,
            Result::Err(e) => {
                return Err(e);
            },
        };
        insert_sorted(&mut instructions, starting_ip, first);
        proof {
            assert(instructions@.contains((starting_ip, first)));
            let i0 = choose|i: int|
                0 <= i < instructions@.len() && instructions@[i] == (starting_ip, first);
            assert((instructions@[i0]).0 == starting_ip);
        }
        push_successors(&mut queue, starting_ip, first.size(), &first);
        proof {
            assert forall|i: int|
                0 <= i < instructions@.len() implies succ_covered(
                instructions@,
                queue@,
                (#[trigger] instructions@[i]).0 as int,
                instructions@[i].1,
            ) by {
                assert(instructions@[i] == (starting_ip, first));
            }
        }
        let mut fuel: u32 = 0x100000;
        loop
            invariant_except_break
                self.inv(),
                addr_sorted(instructions@),
                forall|i: int|
                    0 <= i < instructions@.len() ==> spec_fetch(
                        self@.memory,
                        (#[trigger] instructions@[i]).0 as int,
                    ) == Some(instructions@[i].1) && instructions@[i].0 + spec_size(
                        instructions@[i].1,
                    ) <= 32768,
                instructions@.len() > 0,
                exists|i: int|
                    0 <= i < instructions@.len() && (#[trigger] instructions@[i]).0 == starting_ip,
                forall|i: int|
                    0 <= i < instructions@.len() ==> succ_covered(
                        instructions@,
                        queue@,
                        (#[trigger] instructions@[i]).0 as int,
                        instructions@[i].1,
                    ),
            ensures
                self.inv(),
                addr_sorted(instructions@),
                instructions@.len() > 0,
                forall|i: int|
                    0 <= i < instructions@.len() ==> spec_fetch(
                        self@.memory,
                        (#[trigger] instructions@[i]).0 as int,
                    ) == Some(instructions@[i].1) && instructions@[i].0 + spec_size(
                        instructions@[i].1,
                    ) <= 32768,
                exists|i: int|
                    0 <= i < instructions@.len() && (#[trigger] instructions@[i]).0 == starting_ip,
                forall|i: int|
                    0 <= i < instructions@.len() ==> succ_covered(
                        instructions@,
                        Seq::<usize>::empty(),
                        (#[trigger] instructions@[i]).0 as int,
                        instructions@[i].1,
                    ),
            decreases fuel,
        {
            if fuel == 0 {
                return Err(VmError::StepLimit);
            }
            fuel = fuel - 1;
            let ghost pre_q = queue@;
            let ip = match queue.pop() {
                Some(ip) => ip,
                None => {
                    proof {
                        assert(queue@ =~= Seq::<usize>::empty());
                    }
                    break ;
                },
            };
            proof {
                assert(ip == pre_q.last());
                assert(queue@ == pre_q.drop_last());
            }
            if has_addr(&instructions, ip) {
                proof {
                    lemma_covered_after_pop(instructions@, pre_q, queue@, ip);
                }
                continue ;
            }
            let instr = match self.fetch(ip) {
                Result::Ok(op) => op,
                Result::Err(e) => {
                    return Err(e);
                },
            };
            let size = instr.size();
            let ghost pre = instructions@;
            insert_sorted(&mut instructions, ip, instr);
            proof {
                assert forall|i: int|
                    0 <= i < instructions@.len() implies spec_fetch(
                        self@.memory,
                        (#[trigger] instructions@[i]).0 as int,
                    ) == Some(instructions@[i].1) && instructions@[i].0 + spec_size(
                        instructions@[i].1,
                    ) <= 32768 by {
                    let x = instructions@[i];
                    if x == (ip, instr) {
                    } else {
                        assert(pre.contains(x));
                        let j = choose|j: int| 0 <= j < pre.len() && pre[j] == x;
                        assert(spec_fetch(self@.memory, (pre[j]).0 as int) == Some(pre[j].1));
                    }
                }
                let iold = choose|i: int| 0 <= i < pre.len() && (#[trigger] pre[i]).0 == starting_ip;
                assert(pre.contains(pre[iold]));
                assert(instructions@.contains(pre[iold]));
                let inew = choose|i: int|
                    0 <= i < instructions@.len() && instructions@[i] == pre[iold];
                assert((instructions@[inew]).0 == starting_ip);
            }
            let ghost mid_q = queue@;
            push_successors(&mut queue, ip, size, &instr);
            proof {
                lemma_covered_after_insert(pre, instructions@, pre_q, mid_q, queue@, ip, instr);
            }
        }
        Ok(instructions)
    }

    /// Discover the function at `starting_ip`: fetch the instructions
    /// reachable from it by fall-through and by statically known branch
    /// targets — not following call edges — and assemble them, sorted
    /// by address, into a contiguous function.  A gap in the covered
    /// range, or an address that does not decode, is an error.
    ///
    /// On success, every instruction of the result decodes from memory
    /// at its address, the instructions tile the range `[start, end]`
    /// without gaps, the entry address carries one of them, and the set
    /// is closed under the successors the extractor follows.  An error
    /// is an address that does not decode, a discovered set that does
    /// not tile a contiguous range, or the exhausted internal budget.
    #[verifier::rlimit(100)]
    pub fn disassemble_function(&self, starting_ip: usize) -> (r: Result<Function, VmError>)
        requires
            self.inv(),
        ensures
            match r {
                Result::Ok(f) => {
                    &&& f.wf()
                    &&& forall|i: int|
                        0 <= i < f.spec_code().len() ==> spec_fetch(
                            self@.memory,
                            fn_addr(f.start as int, f.spec_code(), i),
                        ) == Some(f.spec_code()[i])
                    &&& f.start <= starting_ip <= f.end
                    &&& exists|i: int|
                        0 <= i < f.spec_code().len() && fn_addr(f.start as int, f.spec_code(), i)
                            == starting_ip as int
                    &&& f.spec_closed()
                },
                Result::Err(e) => e == VmError::Decode || e == VmError::GappedFunction || e
                    == VmError::StepLimit,
            },
    {
        let instructions = match self.collect_reachable(starting_ip) {
            Result::Ok(instrs) => instrs,
            Result::Err(e) => {
                return Err(e);
            },
        };
        // The sorted discovery set must tile a contiguous range.
        if !check_contiguous(&instructions) {
            return Err(VmError::GappedFunction);
        }
        let start = instructions[0].0;
        let end = instructions[instructions.len() - 1].0;
        let code = codes_of(&instructions);
        proof {
            lemma_function_from_sorted(self@.memory, instructions@, starting_ip);
        }
        let f = Function { start, end, code };
        proof {
            let s = instructions@;
            assert forall|i: int|
                0 <= i < f.spec_code().len() implies #[trigger] f.succ_closed_at(i) by {
                let a = s[i].0 as int;
                let op = s[i].1;
                assert(f.spec_code()[i] == op);
                assert(fn_addr(f.start as int, f.spec_code(), i) == a);
                assert(succ_covered(s, Seq::<usize>::empty(), a, op));
                match op {
                    Opcode::Halt => {},
                    Opcode::Ret => {},
                    Opcode::Call(_) => {
                        assert(addr_in(s, a + spec_size(op)));
                        lemma_member_addr(f, s, a + spec_size(op));
                    },
                    _ => {
                        assert(addr_in(s, a + spec_size(op)));
                        lemma_member_addr(f, s, a + spec_size(op));
                        assert forall|k: int|
                            0 <= k < spec_next_possible(op).len() implies (
                        match #[trigger] spec_next_possible(op)[k] {
                            Val::Num(t) => f.spec_has_addr(t as int),
                            _ => true,
                        }) by {
                            match spec_next_possible(op)[k] {
                                Val::Num(t) => {
                                    assert(addr_in(s, t as int));
                                    lemma_member_addr(f, s, t as int);
                                },
                                _ => {},
                            }
                        }
                    },
                }
            }
        }
        Ok(f)
    }
}

/// A sorted, gap-free discovery set over a memory image yields a
/// well-formed function: its instructions are in-domain, lie at their
/// layout addresses, decode from memory there, and the entry address
/// carries one of them.
proof fn lemma_function_from_sorted(mem: Seq<u16>, s: Seq<(usize, Opcode)>, starting_ip: usize)
    requires
        addr_sorted(s),
        s.len() > 0,
        forall|i: int|
            0 <= i < s.len() ==> spec_fetch(mem, (#[trigger] s[i]).0 as int) == Some(s[i].1) && s[
                i
            ].0 + spec_size(s[i].1) <= 32768,
        forall|k: int|
            0 <= k < s.len() - 1 ==> (#[trigger] s[k]).0 + spec_size(s[k].1) == s[k + 1].0,
        exists|k: int| 0 <= k < s.len() && (#[trigger] s[k]).0 == starting_ip,
    ensures
        ({
            let codes = s.map_values(|x: (usize, Opcode)| x.1);
            &&& forall|k: int| 0 <= k < codes.len() ==> wf_op(#[trigger] codes[k])
            &&& forall|k: int|
                0 <= k < codes.len() ==> fn_addr(s[0].0 as int, codes, k) == (#[trigger] s[
                    k
                ]).0 as int
            &&& s[0].0 as int == fn_addr(s[0].0 as int, codes, 0)
            &&& s[s.len() - 1].0 as int == fn_addr(s[0].0 as int, codes, codes.len() - 1)
            &&& s[0].0 <= starting_ip <= s[s.len() - 1].0
            &&& exists|k: int|
                0 <= k < codes.len() && fn_addr(s[0].0 as int, codes, k) == starting_ip as int
        }),
{
    let codes = s.map_values(|x: (usize, Opcode)| x.1);
    assert forall|k: int| 0 <= k < codes.len() implies wf_op(#[trigger] codes[k]) by {
        lemma_fetch_wf(mem, s[k].0 as int);
    }
    assert forall|k: int| 0 <= k < codes.len() implies fn_addr(s[0].0 as int, codes, k) == (
    #[trigger] s[k]).0 as int by {
        lemma_fn_addr_from_adjacent(s, s[0].0 as int, k);
    }
    let si = choose|k: int| 0 <= k < s.len() && (#[trigger] s[k]).0 == starting_ip;
    assert(fn_addr(s[0].0 as int, codes, si) == starting_ip as int);
    if si > 0 {
        assert(s[0].0 < s[si].0);
    }
    if si < s.len() - 1 {
        assert(s[si].0 < s[s.len() - 1].0);
    }
}

/// In an address-sorted set whose adjacent instructions tile memory
/// without gaps, the `k`-th address is the layout address of the `k`-th
/// instruction.
proof fn lemma_fn_addr_from_adjacent(s: Seq<(usize, Opcode)>, start: int, k: int)
    requires
        s.len() > 0,
        s[0].0 == start,
        0 <= k < s.len(),
        forall|i: int|
            0 <= i < s.len() - 1 ==> (#[trigger] s[i]).0 + spec_size(s[i].1) == s[i + 1].0,
    ensures
        fn_addr(start, s.map_values(|x: (usize, Opcode)| x.1), k) == s[k].0 as int,
    decreases k,
{
    if k > 0 {
        lemma_fn_addr_from_adjacent(s, start, k - 1);
    }
}

} // verus!
