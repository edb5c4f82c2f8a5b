//! The textual mnemonic surface: rendering instructions as `Name` or
//! `Name(op1, op2, …)` and parsing that form back, case-insensitively
//! on the name, with whitespace tolerated around operands.

use vstd::prelude::*;
use vstd::string::StrSliceExecFns;

use crate::assembly::{wf_val, Opcode, Val};
use crate::errors::ParseError;

verus! {

/// An ASCII decimal digit.
pub open spec fn is_digit(c: char) -> bool {
    48 <= c as u32 <= 57
}

/// The numeric value of a digit character.
pub open spec fn digit_val(c: char) -> int {
    c as u32 - 48
}

/// The digit character of a value in `0..10`.
pub open spec fn digit_char(d: int) -> char {
    (48 + d) as char
}

/// Whether every character of `s` is a digit.
pub open spec fn all_digits(s: Seq<char>) -> bool {
    forall|i: int| 0 <= i < s.len() ==> is_digit(#[trigger] s[i])
}

/// The number a run of digits denotes, most significant first.
pub open spec fn digits_val(s: Seq<char>) -> int
    decreases s.len(),
{
    if s.len() == 0 {
        0
    } else {
        digits_val(s.drop_last()) * 10 + digit_val(s.last())
    }
}

/// The decimal text of a non-negative number.
pub open spec fn number_text(n: int) -> Seq<char>
    decreases n,
{
    if n < 10 {
        seq![digit_char(n)]
    } else {
        number_text(n / 10) + seq![digit_char(n % 10)]
    }
}

/// A run of digits denotes a non-negative number.
pub proof fn lemma_digits_val_nonneg(s: Seq<char>)
    requires
        all_digits(s),
    ensures
        digits_val(s) >= 0,
    decreases s.len(),
{
    if s.len() > 0 {
        assert(all_digits(s.drop_last()));
        lemma_digits_val_nonneg(s.drop_last());
    }
}

/// Dropping trailing digits can only shrink the denoted number.
pub proof fn lemma_digits_val_take(s: Seq<char>, i: int)
    requires
        all_digits(s),
        0 <= i <= s.len(),
    ensures
        digits_val(s.take(i)) <= digits_val(s),
    decreases s.len() - i,
{
    if i < s.len() {
        lemma_digits_val_take(s, i + 1);
        assert(s.take(i + 1).drop_last() =~= s.take(i));
        assert(s.take(i + 1).last() == s[i]);
        assert(all_digits(s.take(i)));
        lemma_digits_val_nonneg(s.take(i));
        assert(digits_val(s.take(i + 1)) == digits_val(s.take(i)) * 10 + digit_val(s[i]));
    } else {
        assert(s.take(i) =~= s);
    }
}

/// Parsing inverts printing on numbers: the decimal text of `n` is all
/// digits and denotes `n`.
pub proof fn lemma_number_text_val(n: int)
    requires
        0 <= n,
    ensures
        number_text(n).len() > 0,
        all_digits(number_text(n)),
        digits_val(number_text(n)) == n,
    decreases n,
{
    if n < 10 {
        assert(digit_char(n) as u32 == 48 + n);
        let t = number_text(n);
        assert(t =~= seq![digit_char(n)]);
        assert(t.drop_last() =~= Seq::<char>::empty());
        assert(t.last() == digit_char(n));
        assert(digits_val(t) == digits_val(t.drop_last()) * 10 + digit_val(t.last()));
        assert(digit_val(digit_char(n)) == n);
    } else {
        lemma_number_text_val(n / 10);
        assert(digit_char(n % 10) as u32 == 48 + (n % 10));
        let t = number_text(n);
        assert(t =~= number_text(n / 10) + seq![digit_char(n % 10)]);
        assert(t.drop_last() =~= number_text(n / 10));
        assert(t.last() == digit_char(n % 10));
        assert(digits_val(t) == digits_val(t.drop_last()) * 10 + digit_val(t.last()));
        assert(digit_val(digit_char(n % 10)) == n % 10);
        assert((n / 10) * 10 + (n % 10) == n);
    }
}

/// A whitespace character tolerated around operands.
pub open spec fn is_ws(c: char) -> bool {
    c == ' ' || c == '\t'
}

/// `s` without its leading whitespace.
pub open spec fn trim_front(s: Seq<char>) -> Seq<char>
    decreases s.len(),
{
    if s.len() > 0 && is_ws(s[0]) {
        trim_front(s.skip(1))
    } else {
        s
    }
}

/// `s` without its trailing whitespace.
pub open spec fn trim_back(s: Seq<char>) -> Seq<char>
    decreases s.len(),
{
    if s.len() > 0 && is_ws(s.last()) {
        trim_back(s.drop_last())
    } else {
        s
    }
}

/// `s` without leading and trailing whitespace.
pub open spec fn trim(s: Seq<char>) -> Seq<char> {
    trim_back(trim_front(s))
}

/// The first position of `c` in `s`, or -1 when it does not occur.
pub open spec fn first_index(s: Seq<char>, c: char) -> int
    decreases s.len(),
{
    if s.len() == 0 {
        -1
    } else if s[0] == c {
        0
    } else {
        let r = first_index(s.skip(1), c);
        if r < 0 {
            -1
        } else {
            r + 1
        }
    }
}

/// What `first_index` finds: the position of the first occurrence, or
/// -1 exactly when there is none.
pub proof fn lemma_first_index(s: Seq<char>, c: char)
    ensures
        first_index(s, c) == -1 ==> forall|i: int| 0 <= i < s.len() ==> s[i] != c,
        first_index(s, c) >= 0 ==> 0 <= first_index(s, c) < s.len() && s[first_index(s, c)] == c
            && forall|i: int| 0 <= i < first_index(s, c) ==> s[i] != c,
    decreases s.len(),
{
    if s.len() > 0 && s[0] != c {
        lemma_first_index(s.skip(1), c);
        assert(forall|i: int| 1 <= i < s.len() ==> s[i] == s.skip(1)[i - 1]);
    }
}

/// Splitting at commas: the runs between the commas of `s`, in order;
/// one run, `s` itself, when no comma occurs.
pub open spec fn split_commas(s: Seq<char>) -> Seq<Seq<char>>
    decreases s.len(),
{
    let i = first_index(s, ',');
    if i < 0 || i >= s.len() {
        seq![s]
    } else {
        seq![s.take(i)] + split_commas(s.skip(i + 1))
    }
}

/// Lowercasing of one ASCII character; anything but an ASCII capital is
/// kept.
pub open spec fn lower(c: char) -> char {
    if 65 <= c as u32 <= 90 {
        ((c as u32) + 32) as char
    } else {
        c
    }
}

/// Characterwise ASCII lowercasing.
pub open spec fn lower_seq(s: Seq<char>) -> Seq<char> {
    s.map_values(|c: char| lower(c))
}

/// The text an operand parses from: a run of digits below 32768 for an
/// immediate, `Reg(` and a digit below 8 and `)` for a register;
/// anything else is no operand.
pub open spec fn spec_parse_val(s: Seq<char>) -> Option<Val> {
    if s.len() > 0 && all_digits(s) {
        if digits_val(s) < 32768 {
            Some(Val::Num(digits_val(s) as u16))
        } else {
            None
        }
    } else if s.len() >= 6 && s.take(4) == seq!['R', 'e', 'g', '('] && s.last() == ')' && ({
        let inner = s.subrange(4, s.len() - 1);
        inner.len() > 0 && all_digits(inner) && digits_val(inner) < 8
    }) {
        Some(Val::Reg(digits_val(s.subrange(4, s.len() - 1)) as usize))
    } else {
        None
    }
}

/// The canonical text of an operand: its decimal value, or `Reg(k)`.
pub open spec fn spec_render_val(v: Val) -> Seq<char> {
    match v {
        Val::Num(n) => number_text(n as int),
        Val::Reg(r) => seq!['R', 'e', 'g', '('] + number_text(r as int) + seq![')'],
        Val::Invalid => seq!['I', 'n', 'v', 'a', 'l', 'i', 'd'],
    }
}

/// The characters of a string, in order.
fn chars_of(s: &str) -> (v: Vec<char>)
    ensures
        v@ == s@,
{
    let n = s.unicode_len();
    let mut v: Vec<char> = Vec::new();
    let mut i: usize = 0;
    while i < n
        invariant
            n == s@.len(),
            i <= n,
            v@ == s@.take(i as int),
        decreases n - i,
    {
        v.push(s.get_char(i));
        proof {
            assert(s@.take(i as int).push(s@[i as int]) =~= s@.take(i + 1));
        }
        i = i + 1;
    }
    proof {
        assert(s@.take(n as int) =~= s@);
    }
    v
}

/// The value a run of digits denotes, when `cs` is a non-empty run of
/// digits denoting less than 32768.
fn digits_value(cs: &Vec<char>, from: usize, to: usize) -> (r: Option<u16>)
    requires
        from <= to <= cs@.len(),
    ensures
        ({
            let s = cs@.subrange(from as int, to as int);
            match r {
                Some(val) => s.len() > 0 && all_digits(s) && val == digits_val(s) && digits_val(s)
                    < 32768,
                None => s.len() == 0 || !all_digits(s) || digits_val(s) >= 32768,
            }
        }),
{
    let ghost s = cs@.subrange(from as int, to as int);
    if from == to {
        return None;
    }
    let mut acc: u32 = 0;
    let mut i: usize = from;
    while i < to
        invariant
            from <= i <= to <= cs@.len(),
            s == cs@.subrange(from as int, to as int),
            all_digits(s.take(i - from)),
            acc == digits_val(s.take(i - from)),
            acc < 32768,
        decreases to - i,
    {
        let c = cs[i];
        let u = c as u32;
        if u < 48 || u > 57 {
            proof {
                assert(s[i - from] == cs@[i as int]);
                assert(!is_digit(s[i - from]));
            }
            return None;
        }
        let d = u - 48;
        let next: u32 = acc * 10 + d;
        proof {
            assert(s.take(i - from + 1).drop_last() =~= s.take(i - from));
            assert(s.take(i - from + 1).last() == s[i - from]);
            assert(s[i - from] == cs@[i as int]);
        }
        if next >= 32768 {
            proof {
                assert(digits_val(s.take(i - from + 1)) == next);
                if all_digits(s) {
                    lemma_digits_val_take(s, i - from + 1);
                    assert(s.take(s.len() as int) =~= s);
                }
            }
            return None;
        }
        acc = next;
        i = i + 1;
    }
    proof {
        assert(s.take(s.len() as int) =~= s);
    }
    Some(acc as u16)
}

/// Parse one operand from its exact text.
fn parse_val_chars(cs: &Vec<char>, from: usize, to: usize) -> (r: Option<Val>)
    requires
        from <= to <= cs@.len(),
    ensures
        r == spec_parse_val(cs@.subrange(from as int, to as int)),
{
    let ghost s = cs@.subrange(from as int, to as int);
    let n = to - from;
    match digits_value(cs, from, to) {
        Some(val) => {
            return Some(Val::Num(val));
        },
        None => {},
    }
    // Not a plain number: the only other operand shape is `Reg(k)`.
    if n >= 6 && cs[from] == 'R' && cs[from + 1] == 'e' && cs[from + 2] == 'g' && cs[from + 3]
        == '(' && cs[to - 1] == ')' {
        proof {
            assert(s.take(4) =~= seq!['R', 'e', 'g', '(']);
            assert(s.last() == cs@[to - 1]);
        }
        match digits_value(cs, from + 4, to - 1) {
            Some(val) => {
                proof {
                    assert(s.subrange(4, s.len() - 1) =~= cs@.subrange(from + 4, to - 1));
                }
                if val < 8 {
                    return Some(Val::Reg(val as usize));
                } else {
                    return None;
                }
            },
            None => {
                proof {
                    assert(s.subrange(4, s.len() - 1) =~= cs@.subrange(from + 4, to - 1));
                }
                return None;
            },
        }
    }
    proof {
        if s.len() > 0 && all_digits(s) && digits_val(s) < 32768 {
            assert(false);
        }
        if s.len() >= 6 && s.take(4) == seq!['R', 'e', 'g', '('] && s.last() == ')' {
            assert(s[0] == 'R' && s[1] == 'e' && s[2] == 'g' && s[3] == '(');
            assert(cs@[from as int] == 'R' && cs@[from + 1] == 'e' && cs@[from + 2] == 'g' && cs@[
                from + 3
            ] == '(');
            assert(cs@[to - 1] == ')');
        }
    }
    None
}

/// The operand of a one-operand mnemonic, parsed from its trimmed part.
pub open spec fn spec_args1(parts: Seq<Seq<char>>) -> Option<Val> {
    if parts.len() != 1 {
        None
    } else {
        spec_parse_val(trim(parts[0]))
    }
}

/// The operands of a two-operand mnemonic.
pub open spec fn spec_args2(parts: Seq<Seq<char>>) -> Option<(Val, Val)> {
    if parts.len() != 2 {
        None
    } else {
        match (spec_parse_val(trim(parts[0])), spec_parse_val(trim(parts[1]))) {
            (Some(a), Some(b)) => Some((a, b)),
            _ => None,
        }
    }
}

/// The operands of a three-operand mnemonic.
pub open spec fn spec_args3(parts: Seq<Seq<char>>) -> Option<(Val, Val, Val)> {
    if parts.len() != 3 {
        None
    } else {
        match (
            spec_parse_val(trim(parts[0])),
            spec_parse_val(trim(parts[1])),
            spec_parse_val(trim(parts[2])),
        ) {
            (Some(a), Some(b), Some(c)) => Some((a, b, c)),
            _ => None,
        }
    }
}

/// The instruction a mnemonic text denotes: `Name` for the nullary
/// instructions, `Name(op1, …)` with comma-separated operands for the
/// rest, the name matched without regard to case.
pub open spec fn spec_parse_opcode(s: Seq<char>) -> Option<Opcode> {
    let p = first_index(s, '(');
    if p < 0 {
        let n = lower_seq(s);
        if n == seq!['h', 'a', 'l', 't'] {
            Some(Opcode::Halt)
        } else if n == seq!['r', 'e', 't'] {
            Some(Opcode::Ret)
        } else if n == seq!['n', 'o', 'o', 'p'] {
            Some(Opcode::Noop)
        } else {
            None
        }
    } else if s.len() - p < 2 || s.last() != ')' {
        None
    } else {
        let name = lower_seq(s.take(p));
        let parts = split_commas(s.subrange(p + 1, s.len() - 1));
        if name == seq!['s', 'e', 't'] {
            match spec_args2(parts) {
                Some(ab) => Some(Opcode::Assign(ab.0, ab.1)),
                None => None,
            }
        } else if name == seq!['p', 'u', 's', 'h'] {
            match spec_args1(parts) {
                Some(a) => Some(Opcode::Push(a)),
                None => None,
            }
        } else if name == seq!['p', 'o', 'p'] {
            match spec_args1(parts) {
                Some(a) => Some(Opcode::Pop(a)),
                None => None,
            }
        } else if name == seq!['e', 'q'] {
            match spec_args3(parts) {
                Some(abc) => Some(Opcode::Eq(abc.0, abc.1, abc.2)),
                None => None,
            }
        } else if name == seq!['g', 't'] {
            match spec_args3(parts) {
                Some(abc) => Some(Opcode::Gt(abc.0, abc.1, abc.2)),
                None => None,
            }
        } else if name == seq!['j', 'm', 'p'] {
            match spec_args1(parts) {
                Some(a) => Some(Opcode::Jmp(a)),
                None => None,
            }
        } else if name == seq!['j', 't'] {
            match spec_args2(parts) {
                Some(ab) => Some(Opcode::Jt(ab.0, ab.1)),
                None => None,
            }
        } else if name == seq!['j', 'f'] {
            match spec_args2(parts) {
                Some(ab) => Some(Opcode::Jf(ab.0, ab.1)),
                None => None,
            }
        } else if name == seq!['a', 'd', 'd'] {
            match spec_args3(parts) {
                Some(abc) => Some(Opcode::Add(abc.0, abc.1, abc.2)),
                None => None,
            }
        } else if name == seq!['m', 'u', 'l', 't'] {
            match spec_args3(parts) {
                Some(abc) => Some(Opcode::Mult(abc.0, abc.1, abc.2)),
                None => None,
            }
        } else if name == seq!['m', 'o', 'd'] {
            match spec_args3(parts) {
                Some(abc) => Some(Opcode::Mod(abc.0, abc.1, abc.2)),
                None => None,
            }
        } else if name == seq!['a', 'n', 'd'] {
            match spec_args3(parts) {
                Some(abc) => Some(Opcode::And(abc.0, abc.1, abc.2)),
                None => None,
            }
        } else if name == seq!['o', 'r'] {
            match spec_args3(parts) {
                Some(abc) => Some(Opcode::Or(abc.0, abc.1, abc.2)),
                None => None,
            }
        } else if name == seq!['n', 'o', 't'] {
            match spec_args2(parts) {
                Some(ab) => Some(Opcode::Not(ab.0, ab.1)),
                None => None,
            }
        } else if name == seq!['r', 'm', 'e', 'm'] {
            match spec_args2(parts) {
                Some(ab) => Some(Opcode::Rmem(ab.0, ab.1)),
                None => None,
            }
        } else if name == seq!['w', 'm', 'e', 'm'] {
            match spec_args2(parts) {
                Some(ab) => Some(Opcode::Wmem(ab.0, ab.1)),
                None => None,
            }
        } else if name == seq!['c', 'a', 'l', 'l'] {
            match spec_args1(parts) {
                Some(a) => Some(Opcode::Call(a)),
                None => None,
            }
        } else if name == seq!['o', 'u', 't'] {
            match spec_args1(parts) {
                Some(a) => Some(Opcode::Out(a)),
                None => None,
            }
        } else if name == seq!['i', 'n'] {
            match spec_args1(parts) {
                Some(a) => Some(Opcode::In(a)),
                None => None,
            }
        } else {
            None
        }
    }
}

/// The canonical text of an instruction: its capitalized name, and its
/// operands in parentheses separated by comma-space.
pub open spec fn spec_render_opcode(op: Opcode) -> Seq<char> {
    let sep = seq![',', ' '];
    match op {
        Opcode::Halt => seq!['H', 'a', 'l', 't'],
        Opcode::Assign(a, b) => seq!['S', 'e', 't', '('] + spec_render_val(a) + sep
            + spec_render_val(b) + seq![')'],
        Opcode::Push(a) => seq!['P', 'u', 's', 'h', '('] + spec_render_val(a) + seq![')'],
        Opcode::Pop(a) => seq!['P', 'o', 'p', '('] + spec_render_val(a) + seq![')'],
        Opcode::Eq(a, b, c) => seq!['E', 'q', '('] + spec_render_val(a) + sep + spec_render_val(b)
            + sep + spec_render_val(c) + seq![')'],
        Opcode::Gt(a, b, c) => seq!['G', 't', '('] + spec_render_val(a) + sep + spec_render_val(b)
            + sep + spec_render_val(c) + seq![')'],
        Opcode::Jmp(a) => seq!['J', 'm', 'p', '('] + spec_render_val(a) + seq![')'],
        Opcode::Jt(a, b) => seq!['J', 't', '('] + spec_render_val(a) + sep + spec_render_val(b)
            + seq![')'],
        Opcode::Jf(a, b) => seq!['J', 'f', '('] + spec_render_val(a) + sep + spec_render_val(b)
            + seq![')'],
        Opcode::Add(a, b, c) => seq!['A', 'd', 'd', '('] + spec_render_val(a) + sep
            + spec_render_val(b) + sep + spec_render_val(c) + seq![')'],
        Opcode::Mult(a, b, c) => seq!['M', 'u', 'l', 't', '('] + spec_render_val(a) + sep
            + spec_render_val(b) + sep + spec_render_val(c) + seq![')'],
        Opcode::Mod(a, b, c) => seq!['M', 'o', 'd', '('] + spec_render_val(a) + sep
            + spec_render_val(b) + sep + spec_render_val(c) + seq![')'],
        Opcode::And(a, b, c) => seq!['A', 'n', 'd', '('] + spec_render_val(a) + sep
            + spec_render_val(b) + sep + spec_render_val(c) + seq![')'],
        Opcode::Or(a, b, c) => seq!['O', 'r', '('] + spec_render_val(a) + sep + spec_render_val(b)
            + sep + spec_render_val(c) + seq![')'],
        Opcode::Not(a, b) => seq!['N', 'o', 't', '('] + spec_render_val(a) + sep
            + spec_render_val(b) + seq![')'],
        Opcode::Rmem(a, b) => seq!['R', 'm', 'e', 'm', '('] + spec_render_val(a) + sep
            + spec_render_val(b) + seq![')'],
        Opcode::Wmem(a, b) => seq!['W', 'm', 'e', 'm', '('] + spec_render_val(a) + sep
            + spec_render_val(b) + seq![')'],
        Opcode::Call(a) => seq!['C', 'a', 'l', 'l', '('] + spec_render_val(a) + seq![')'],
        Opcode::Ret => seq!['R', 'e', 't'],
        Opcode::Out(a) => seq!['O', 'u', 't', '('] + spec_render_val(a) + seq![')'],
        Opcode::In(a) => seq!['I', 'n', '('] + spec_render_val(a) + seq![')'],
        Opcode::Noop => seq!['N', 'o', 'o', 'p'],
    }
}

/// Leading whitespace does not change what trimming from the front
/// leaves once it is skipped.
proof fn lemma_trim_front_skip(s: Seq<char>, k: int)
    requires
        0 <= k <= s.len(),
        forall|j: int| 0 <= j < k ==> is_ws(#[trigger] s[j]),
    ensures
        trim_front(s) == trim_front(s.skip(k)),
    decreases k,
{
    if k > 0 {
        assert(is_ws(s[0]));
        assert(trim_front(s) == trim_front(s.skip(1)));
        assert(forall|j: int| 0 <= j < k - 1 ==> is_ws(#[trigger] s.skip(1)[j]));
        lemma_trim_front_skip(s.skip(1), k - 1);
        assert(s.skip(1).skip(k - 1) =~= s.skip(k));
        assert(trim_front(s.skip(1).skip(k - 1)) == trim_front(s.skip(k)));
    } else {
        assert(s.skip(0) =~= s);
    }
}

/// Trailing whitespace does not change what trimming from the back
/// leaves once it is cut.
proof fn lemma_trim_back_take(s: Seq<char>, b: int)
    requires
        0 <= b <= s.len(),
        forall|j: int| b <= j < s.len() ==> is_ws(#[trigger] s[j]),
    ensures
        trim_back(s) == trim_back(s.take(b)),
    decreases s.len() - b,
{
    if b < s.len() {
        assert(is_ws(s.last()));
        assert(trim_back(s) == trim_back(s.drop_last()));
        lemma_trim_back_take(s.drop_last(), b);
        assert(s.drop_last().take(b) =~= s.take(b));
    } else {
        assert(s.take(b) =~= s);
    }
}

/// Parse one operand out of a comma-separated part, whitespace around
/// it tolerated.
fn parse_operand(part: &Vec<char>) -> (r: Option<Val>)
    ensures
        r == spec_parse_val(trim(part@)),
{
    let n = part.len();
    let mut a: usize = 0;
    while a < n && (part[a] == ' ' || part[a] == '\t')
        invariant
            n == part@.len(),
            a <= n,
            forall|j: int| 0 <= j < a ==> is_ws(#[trigger] part@[j]),
        decreases n - a,
    {
        a = a + 1;
    }
    let mut b: usize = n;
    while b > a && (part[b - 1] == ' ' || part[b - 1] == '\t')
        invariant
            n == part@.len(),
            a <= b <= n,
            forall|j: int| b <= j < n ==> is_ws(#[trigger] part@[j]),
        decreases b,
    {
        b = b - 1;
    }
    proof {
        lemma_trim_front_skip(part@, a as int);
        if a < n {
            assert(!is_ws(part@.skip(a as int)[0]));
        }
        assert(trim_front(part@) == part@.skip(a as int));
        let sk = part@.skip(a as int);
        assert(forall|j: int|
            b - a <= j < sk.len() ==> is_ws(#[trigger] sk[j]));
        lemma_trim_back_take(sk, b - a);
        if b > a {
            assert(!is_ws(sk.take(b - a).last()));
        }
        assert(trim_back(sk.take(b - a)) == sk.take(b - a));
        assert(trim(part@) == sk.take(b - a));
        assert(sk.take(b - a) =~= part@.subrange(a as int, b as int));
    }
    parse_val_chars(part, a, b)
}

/// The position of the first occurrence of `c`, if it occurs.
fn find_char(cs: &Vec<char>, c: char) -> (r: Option<usize>)
    ensures
        match r {
            Some(i) => first_index(cs@, c) == i as int,
            None => first_index(cs@, c) == -1,
        },
{
    let mut i: usize = 0;
    while i < cs.len()
        invariant
            i <= cs@.len(),
            forall|j: int| 0 <= j < i ==> cs@[j] != c,
        decreases cs@.len() - i,
    {
        if cs[i] == c {
            proof {
                lemma_first_index(cs@, c);
                let fi = first_index(cs@, c);
                if fi == -1 {
                    assert(cs@[i as int] != c);
                } else if fi < i {
                    assert(cs@[fi] != c);
                } else if fi > i {
                    assert(cs@[i as int] != c);
                }
            }
            return Some(i);
        }
        i = i + 1;
    }
    proof {
        lemma_first_index(cs@, c);
        let fi = first_index(cs@, c);
        if fi >= 0 {
            assert(cs@[fi] != c);
        }
    }
    None
}

/// A copy of one range of characters.
fn copy_range(cs: &Vec<char>, from: usize, to: usize) -> (r: Vec<char>)
    requires
        from <= to <= cs@.len(),
    ensures
        r@ == cs@.subrange(from as int, to as int),
{
    let mut r: Vec<char> = Vec::new();
    let mut i: usize = from;
    while i < to
        invariant
            from <= i <= to <= cs@.len(),
            r@ == cs@.subrange(from as int, i as int),
        decreases to - i,
    {
        r.push(cs[i]);
        proof {
            assert(cs@.subrange(from as int, i as int).push(cs@[i as int]) =~= cs@.subrange(
                from as int,
                i + 1,
            ));
        }
        i = i + 1;
    }
    r
}

/// The comma-separated parts of one range of characters.
fn split_commas_exec(cs: &Vec<char>, from: usize, to: usize) -> (r: Vec<Vec<char>>)
    requires
        from <= to <= cs@.len(),
    ensures
        r.deep_view() == split_commas(cs@.subrange(from as int, to as int)),
    decreases to - from,
{
    let ghost s = cs@.subrange(from as int, to as int);
    let mut i: usize = from;
    while i < to
        invariant
            from <= i <= to <= cs@.len(),
            s == cs@.subrange(from as int, to as int),
            forall|j: int| 0 <= j < i - from ==> s[j] != ',',
        decreases to - i,
    {
        if cs[i] == ',' {
            proof {
                assert(s[i - from] == ',');
                lemma_first_index(s, ',');
                let fi = first_index(s, ',');
                if fi == -1 {
                    assert(s[i - from] != ',');
                } else if fi < i - from {
                    assert(s[fi] != ',');
                } else if fi > i - from {
                    assert(s[i - from] != ',');
                }
                assert(fi == i - from);
            }
            let head = copy_range(cs, from, i);
            let mut rest = split_commas_exec(cs, i + 1, to);
            let mut r: Vec<Vec<char>> = Vec::new();
            r.push(head);
            let ghost rest_view = rest.deep_view();
            r.append(&mut rest);
            proof {
                let fi = first_index(s, ',');
                assert(head@ =~= s.take(fi));
                assert(cs@.subrange(i + 1, to as int) =~= s.skip(fi + 1));
                assert(r.deep_view() =~~= seq![s.take(fi)] + split_commas(s.skip(fi + 1)));
            }
            return r;
        }
        i = i + 1;
    }
    proof {
        lemma_first_index(s, ',');
        let fi = first_index(s, ',');
        if fi >= 0 {
            assert(s[fi] != ',');
        }
        assert(fi == -1);
    }
    let whole = copy_range(cs, from, to);
    let mut r: Vec<Vec<char>> = Vec::new();
    r.push(whole);
    proof {
        assert(r.deep_view() =~~= seq![s]);
    }
    r
}

/// Whether one range of characters lowercases to the given name.
fn eq_lower_name(cs: &Vec<char>, from: usize, to: usize, expected: &[char]) -> (r: bool)
    requires
        from <= to <= cs@.len(),
    ensures
        r == (lower_seq(cs@.subrange(from as int, to as int)) == expected@),
{
    let ghost s = cs@.subrange(from as int, to as int);
    if to - from != expected.len() {
        proof {
            assert(lower_seq(s).len() == s.len());
        }
        return false;
    }
    let mut i: usize = 0;
    while i < expected.len()
        invariant
            from <= to <= cs@.len(),
            s == cs@.subrange(from as int, to as int),
            to - from == expected@.len(),
            i <= expected@.len(),
            forall|j: int| 0 <= j < i ==> lower_seq(s)[j] == expected@[j],
        decreases expected@.len() - i,
    {
        let c = cs[from + i];
        let u = c as u32;
        let lc: char = if 65 <= u && u <= 90 {
            ((u + 32) as u8) as char
        } else {
            c
        };
        proof {
            assert(s[i as int] == cs@[from + i]);
            assert(lower_seq(s)[i as int] == lower(s[i as int]));
        }
        if lc != expected[i] {
            proof {
                assert(lower_seq(s)[i as int] != expected@[i as int]);
            }
            return false;
        }
        i = i + 1;
    }
    proof {
        assert(lower_seq(s) =~= expected@);
    }
    true
}

/// Parse an instruction from its mnemonic text.
pub fn parse_opcode(s: &str) -> (r: Option<Opcode>)
    ensures
        r == spec_parse_opcode(s@),
{
    let cs = chars_of(s);
    parse_opcode_chars(&cs)
}

/// The one-operand payload of a split argument list.
fn args1(parts: &Vec<Vec<char>>) -> (r: Option<Val>)
    ensures
        r == spec_args1(parts.deep_view()),
{
    if parts.len() != 1 {
        return None;
    }
    proof {
        assert(parts.deep_view()[0] =~= parts@[0]@);
    }
    parse_operand(&parts[0])
}

/// The two-operand payload of a split argument list.
fn args2(parts: &Vec<Vec<char>>) -> (r: Option<(Val, Val)>)
    ensures
        r == spec_args2(parts.deep_view()),
{
    if parts.len() != 2 {
        return None;
    }
    proof {
        assert(parts.deep_view()[0] =~= parts@[0]@);
        assert(parts.deep_view()[1] =~= parts@[1]@);
    }
    let a = match parse_operand(&parts[0]) {
        Some(a) => a,
        None => {
            return None;
        },
    };
    let b = match parse_operand(&parts[1]) {
        Some(b) => b,
        None => {
            return None;
        },
    };
    Some((a, b))
}

/// The three-operand payload of a split argument list.
fn args3(parts: &Vec<Vec<char>>) -> (r: Option<(Val, Val, Val)>)
    ensures
        r == spec_args3(parts.deep_view()),
{
    if parts.len() != 3 {
        return None;
    }
    proof {
        assert(parts.deep_view()[0] =~= parts@[0]@);
        assert(parts.deep_view()[1] =~= parts@[1]@);
        assert(parts.deep_view()[2] =~= parts@[2]@);
    }
    let a = match parse_operand(&parts[0]) {
        Some(a) => a,
        None => {
            return None;
        },
    };
    let b = match parse_operand(&parts[1]) {
        Some(b) => b,
        None => {
            return None;
        },
    };
    let c = match parse_operand(&parts[2]) {
        Some(c) => c,
        None => {
            return None;
        },
    };
    Some((a, b, c))
}

/// Parse an instruction from its characters.
#[verifier::rlimit(100)]
fn parse_opcode_chars(cs: &Vec<char>) -> (r: Option<Opcode>)
    ensures
        r == spec_parse_opcode(cs@),
{
    let n = cs.len();
    let p = match find_char(cs, '(') {
        None => {
            proof {
                assert(cs@.subrange(0, n as int) =~= cs@);
            }
            if eq_lower_name(cs, 0, n, &['h', 'a', 'l', 't']) {
                return Some(Opcode::Halt);
            }
            if eq_lower_name(cs, 0, n, &['r', 'e', 't']) {
                return Some(Opcode::Ret);
            }
            if eq_lower_name(cs, 0, n, &['n', 'o', 'o', 'p']) {
                return Some(Opcode::Noop);
            }
            return None;
        },
        Some(p) => p,
    };
    proof {
        lemma_first_index(cs@, '(');
    }
    if n - p < 2 || cs[n - 1] != ')' {
        return None;
    }
    let parts = split_commas_exec(cs, p + 1, n - 1);
    proof {
        assert(cs@.subrange(p + 1, n - 1) =~= cs@.subrange(p + 1, cs@.len() - 1));
        assert(cs@.take(p as int) =~= cs@.subrange(0, p as int));
    }
    if eq_lower_name(cs, 0, p, &['s', 'e', 't']) {
        match args2(&parts) {
            Some(ab) => Some(Opcode::Assign(ab.0, ab.1)),
            None => None,
        }
    } else if eq_lower_name(cs, 0, p, &['p', 'u', 's', 'h']) {
        match args1(&parts) {
            Some(a) => Some(Opcode::Push(a)),
            None => None,
        }
    } else if eq_lower_name(cs, 0, p, &['p', 'o', 'p']) {
        match args1(&parts) {
            Some(a) => Some(Opcode::Pop(a)),
            None => None,
        }
    } else if eq_lower_name(cs, 0, p, &['e', 'q']) {
        match args3(&parts) {
            Some(abc) => Some(Opcode::Eq(abc.0, abc.1, abc.2)),
            None => None,
        }
    } else if eq_lower_name(cs, 0, p, &['g', 't']) {
        match args3(&parts) {
            Some(abc) => Some(Opcode::Gt(abc.0, abc.1, abc.2)),
            None => None,
        }
    } else if eq_lower_name(cs, 0, p, &['j', 'm', 'p']) {
        match args1(&parts) {
            Some(a) => Some(Opcode::Jmp(a)),
            None => None,
        }
    } else if eq_lower_name(cs, 0, p, &['j', 't']) {
        match args2(&parts) {
            Some(ab) => Some(Opcode::Jt(ab.0, ab.1)),
            None => None,
        }
    } else if eq_lower_name(cs, 0, p, &['j', 'f']) {
        match args2(&parts) {
            Some(ab) => Some(Opcode::Jf(ab.0, ab.1)),
            None => None,
        }
    } else if eq_lower_name(cs, 0, p, &['a', 'd', 'd']) {
        match args3(&parts) {
            Some(abc) => Some(Opcode::Add(abc.0, abc.1, abc.2)),
            None => None,
        }
    } else if eq_lower_name(cs, 0, p, &['m', 'u', 'l', 't']) {
        match args3(&parts) {
            Some(abc) => Some(Opcode::Mult(abc.0, abc.1, abc.2)),
            None => None,
        }
    } else if eq_lower_name(cs, 0, p, &['m', 'o', 'd']) {
        match args3(&parts) {
            Some(abc) => Some(Opcode::Mod(abc.0, abc.1, abc.2)),
            None => None,
        }
    } else if eq_lower_name(cs, 0, p, &['a', 'n', 'd']) {
        match args3(&parts) {
            Some(abc) => Some(Opcode::And(abc.0, abc.1, abc.2)),
            None => None,
        }
    } else if eq_lower_name(cs, 0, p, &['o', 'r']) {
        match args3(&parts) {
            Some(abc) => Some(Opcode::Or(abc.0, abc.1, abc.2)),
            None => None,
        }
    } else if eq_lower_name(cs, 0, p, &['n', 'o', 't']) {
        match args2(&parts) {
            Some(ab) => Some(Opcode::Not(ab.0, ab.1)),
            None => None,
        }
    } else if eq_lower_name(cs, 0, p, &['r', 'm', 'e', 'm']) {
        match args2(&parts) {
            Some(ab) => Some(Opcode::Rmem(ab.0, ab.1)),
            None => None,
        }
    } else if eq_lower_name(cs, 0, p, &['w', 'm', 'e', 'm']) {
        match args2(&parts) {
            Some(ab) => Some(Opcode::Wmem(ab.0, ab.1)),
            None => None,
        }
    } else if eq_lower_name(cs, 0, p, &['c', 'a', 'l', 'l']) {
        match args1(&parts) {
            Some(a) => Some(Opcode::Call(a)),
            None => None,
        }
    } else if eq_lower_name(cs, 0, p, &['o', 'u', 't']) {
        match args1(&parts) {
            Some(a) => Some(Opcode::Out(a)),
            None => None,
        }
    } else if eq_lower_name(cs, 0, p, &['i', 'n']) {
        match args1(&parts) {
            Some(a) => Some(Opcode::In(a)),
            None => None,
        }
    } else {
        None
    }
}

/// Append the decimal text of a number.
fn push_number(out: &mut Vec<char>, n: u16)
    ensures
        final(out)@ == old(out)@ + number_text(n as int),
    decreases n,
{
    if n < 10 {
        out.push(((48 + n) as u8) as char);
        proof {
            assert(final(out)@ =~= old(out)@ + number_text(n as int));
        }
    } else {
        push_number(out, n / 10);
        out.push(((48 + (n % 10)) as u8) as char);
        proof {
            assert(final(out)@ =~= old(out)@ + number_text(n as int));
        }
    }
}

/// Append the canonical text of an operand.
fn push_val(out: &mut Vec<char>, v: &Val)
    requires
        wf_val(*v),
    ensures
        final(out)@ == old(out)@ + spec_render_val(*v),
{
    match v {
        Val::Num(n) => {
            push_number(out, *n);
        },
        Val::Reg(r) => {
            out.push('R');
            out.push('e');
            out.push('g');
            out.push('(');
            push_number(out, *r as u16);
            out.push(')');
            proof {
                assert(final(out)@ =~= old(out)@ + spec_render_val(*v));
            }
        },
        Val::Invalid => {
            out.push('I');
            out.push('n');
            out.push('v');
            out.push('a');
            out.push('l');
            out.push('i');
            out.push('d');
            proof {
                assert(final(out)@ =~= old(out)@ + spec_render_val(*v));
            }
        },
    }
}

/// Append a comma-space separator.
fn push_sep(out: &mut Vec<char>)
    ensures
        final(out)@ == old(out)@ + seq![',', ' '],
{
    out.push(',');
    out.push(' ');
    proof {
        assert(final(out)@ =~= old(out)@ + seq![',', ' ']);
    }
}

/// The canonical mnemonic text of an instruction.
#[verifier::rlimit(100)]
pub fn opcode_text(op: &Opcode) -> (r: String)
    requires
        crate::assembly::wf_op(*op),
    ensures
        r@ == spec_render_opcode(*op),
{
    let mut out: Vec<char> = Vec::new();
    match op {
        Opcode::Halt => {
            out.push('H');
            out.push('a');
            out.push('l');
            out.push('t');
        },
        Opcode::Assign(a, b) => {
            out.push('S');
            out.push('e');
            out.push('t');
            out.push('(');
            push_val(&mut out, a);
            push_sep(&mut out);
            push_val(&mut out, b);
            out.push(')');
        },
        Opcode::Push(a) => {
            out.push('P');
            out.push('u');
            out.push('s');
            out.push('h');
            out.push('(');
            push_val(&mut out, a);
            out.push(')');
        },
        Opcode::Pop(a) => {
            out.push('P');
            out.push('o');
            out.push('p');
            out.push('(');
            push_val(&mut out, a);
            out.push(')');
        },
        Opcode::Eq(a, b, c) => {
            out.push('E');
            out.push('q');
            out.push('(');
            push_val(&mut out, a);
            push_sep(&mut out);
            push_val(&mut out, b);
            push_sep(&mut out);
            push_val(&mut out, c);
            out.push(')');
        },
        Opcode::Gt(a, b, c) => {
            out.push('G');
            out.push('t');
            out.push('(');
            push_val(&mut out, a);
            push_sep(&mut out);
            push_val(&mut out, b);
            push_sep(&mut out);
            push_val(&mut out, c);
            out.push(')');
        },
        Opcode::Jmp(a) => {
            out.push('J');
            out.push('m');
            out.push('p');
            out.push('(');
            push_val(&mut out, a);
            out.push(')');
        },
        Opcode::Jt(a, b) => {
            out.push('J');
            out.push('t');
            out.push('(');
            push_val(&mut out, a);
            push_sep(&mut out);
            push_val(&mut out, b);
            out.push(')');
        },
        Opcode::Jf(a, b) => {
            out.push('J');
            out.push('f');
            out.push('(');
            push_val(&mut out, a);
            push_sep(&mut out);
            push_val(&mut out, b);
            out.push(')');
        },
        Opcode::Add(a, b, c) => {
            out.push('A');
            out.push('d');
            out.push('d');
            out.push('(');
            push_val(&mut out, a);
            push_sep(&mut out);
            push_val(&mut out, b);
            push_sep(&mut out);
            push_val(&mut out, c);
            out.push(')');
        },
        Opcode::Mult(a, b, c) => {
            out.push('M');
            out.push('u');
            out.push('l');
            out.push('t');
            out.push('(');
            push_val(&mut out, a);
            push_sep(&mut out);
            push_val(&mut out, b);
            push_sep(&mut out);
            push_val(&mut out, c);
            out.push(')');
        },
        Opcode::Mod(a, b, c) => {
            out.push('M');
            out.push('o');
            out.push('d');
            out.push('(');
            push_val(&mut out, a);
            push_sep(&mut out);
            push_val(&mut out, b);
            push_sep(&mut out);
            push_val(&mut out, c);
            out.push(')');
        },
        Opcode::And(a, b, c) => {
            out.push('A');
            out.push('n');
            out.push('d');
            out.push('(');
            push_val(&mut out, a);
            push_sep(&mut out);
            push_val(&mut out, b);
            push_sep(&mut out);
            push_val(&mut out, c);
            out.push(')');
        },
        Opcode::Or(a, b, c) => {
            out.push('O');
            out.push('r');
            out.push('(');
            push_val(&mut out, a);
            push_sep(&mut out);
            push_val(&mut out, b);
            push_sep(&mut out);
            push_val(&mut out, c);
            out.push(')');
        },
        Opcode::Not(a, b) => {
            out.push('N');
            out.push('o');
            out.push('t');
            out.push('(');
            push_val(&mut out, a);
            push_sep(&mut out);
            push_val(&mut out, b);
            out.push(')');
        },
        Opcode::Rmem(a, b) => {
            out.push('R');
            out.push('m');
            out.push('e');
            out.push('m');
            out.push('(');
            push_val(&mut out, a);
            push_sep(&mut out);
            push_val(&mut out, b);
            out.push(')');
        },
        Opcode::Wmem(a, b) => {
            out.push('W');
            out.push('m');
            out.push('e');
            out.push('m');
            out.push('(');
            push_val(&mut out, a);
            push_sep(&mut out);
            push_val(&mut out, b);
            out.push(')');
        },
        Opcode::Call(a) => {
            out.push('C');
            out.push('a');
            out.push('l');
            out.push('l');
            out.push('(');
            push_val(&mut out, a);
            out.push(')');
        },
        Opcode::Ret => {
            out.push('R');
            out.push('e');
            out.push('t');
        },
        Opcode::Out(a) => {
            out.push('O');
            out.push('u');
            out.push('t');
            out.push('(');
            push_val(&mut out, a);
            out.push(')');
        },
        Opcode::In(a) => {
            out.push('I');
            out.push('n');
            out.push('(');
            push_val(&mut out, a);
            out.push(')');
        },
        Opcode::Noop => {
            out.push('N');
            out.push('o');
            out.push('o');
            out.push('p');
        },
    }
    proof {
        assert(out@ =~= spec_render_opcode(*op));
    }
    crate::emulator::string_of_chars(&out)
}

/// Parsing inverts printing on operands: the canonical text of an
/// in-domain immediate or register parses back to it.
pub proof fn lemma_val_text_round_trip(v: Val)
    requires
        wf_val(v),
        v != Val::Invalid,
    ensures
        spec_parse_val(spec_render_val(v)) == Some(v),
{
    match v {
        Val::Num(n) => {
            lemma_number_text_val(n as int);
        },
        Val::Reg(r) => {
            lemma_number_text_val(r as int);
            let s = spec_render_val(v);
            let digits = number_text(r as int);
            assert(s =~= seq!['R', 'e', 'g', '('] + digits + seq![')']);
            assert(s[0] == 'R');
            assert(!is_digit('R'));
            assert(s.take(4) =~= seq!['R', 'e', 'g', '(']);
            assert(s.last() == ')');
            assert(s.subrange(4, s.len() - 1) =~= digits);
        },
        Val::Invalid => {},
    }
}

/// An operand whose text parses back: an in-domain immediate or
/// register; the invalid encoding has no parseable text.
pub open spec fn renderable_val(v: Val) -> bool {
    match v {
        Val::Num(n) => n < 32768,
        Val::Reg(r) => r < 8,
        Val::Invalid => false,
    }
}

/// An instruction whose mnemonic text parses back: every operand
/// renderable.
pub open spec fn renderable(op: Opcode) -> bool {
    match op {
        Opcode::Halt => true,
        Opcode::Assign(a, b) => renderable_val(a) && renderable_val(b),
        Opcode::Push(a) => renderable_val(a),
        Opcode::Pop(a) => renderable_val(a),
        Opcode::Eq(a, b, c) => renderable_val(a) && renderable_val(b) && renderable_val(c),
        Opcode::Gt(a, b, c) => renderable_val(a) && renderable_val(b) && renderable_val(c),
        Opcode::Jmp(a) => renderable_val(a),
        Opcode::Jt(a, b) => renderable_val(a) && renderable_val(b),
        Opcode::Jf(a, b) => renderable_val(a) && renderable_val(b),
        Opcode::Add(a, b, c) => renderable_val(a) && renderable_val(b) && renderable_val(c),
        Opcode::Mult(a, b, c) => renderable_val(a) && renderable_val(b) && renderable_val(c),
        Opcode::Mod(a, b, c) => renderable_val(a) && renderable_val(b) && renderable_val(c),
        Opcode::And(a, b, c) => renderable_val(a) && renderable_val(b) && renderable_val(c),
        Opcode::Or(a, b, c) => renderable_val(a) && renderable_val(b) && renderable_val(c),
        Opcode::Not(a, b) => renderable_val(a) && renderable_val(b),
        Opcode::Rmem(a, b) => renderable_val(a) && renderable_val(b),
        Opcode::Wmem(a, b) => renderable_val(a) && renderable_val(b),
        Opcode::Call(a) => renderable_val(a),
        Opcode::Ret => true,
        Opcode::Out(a) => renderable_val(a),
        Opcode::In(a) => renderable_val(a),
        Opcode::Noop => true,
    }
}

/// A rendered operand has no whitespace and no comma in it.
proof fn lemma_val_text_clean(v: Val)
    requires
        renderable_val(v),
    ensures
        spec_render_val(v).len() > 0,
        forall|i: int|
            0 <= i < spec_render_val(v).len() ==> !is_ws(#[trigger] spec_render_val(v)[i])
                && spec_render_val(v)[i] != ',',
{
    match v {
        Val::Num(n) => {
            lemma_number_text_val(n as int);
            assert forall|i: int|
                0 <= i < spec_render_val(v).len() implies !is_ws(
                #[trigger] spec_render_val(v)[i]) && spec_render_val(v)[i] != ',' by {
                assert(is_digit(spec_render_val(v)[i]));
            }
        },
        Val::Reg(r) => {
            lemma_number_text_val(r as int);
            let t = spec_render_val(v);
            let digits = number_text(r as int);
            assert forall|i: int| 0 <= i < t.len() implies !is_ws(#[trigger] t[i]) && t[i]
                != ',' by {
                if 4 <= i < 4 + digits.len() {
                    assert(t[i] == digits[i - 4]);
                    assert(is_digit(digits[i - 4]));
                } else if i >= 4 + digits.len() {
                    assert(t[i] == ')');
                }
            }
        },
        Val::Invalid => {},
    }
}

/// Trimming leaves a text with no outer whitespace untouched.
proof fn lemma_trim_id(t: Seq<char>)
    requires
        forall|i: int| 0 <= i < t.len() ==> !is_ws(#[trigger] t[i]),
    ensures
        trim(t) == t,
{
}

/// Trimming strips one leading blank off an otherwise clean text.
proof fn lemma_trim_space_prefix(t: Seq<char>)
    requires
        forall|i: int| 0 <= i < t.len() ==> !is_ws(#[trigger] t[i]),
    ensures
        trim(seq![' '] + t) == t,
{
    let s = seq![' '] + t;
    assert(is_ws(s[0]));
    assert(s.skip(1) =~= t);
    assert(trim_front(s) == trim_front(t));
    assert(trim_front(t) == t);
    assert(trim_back(t) == t);
}

/// The first occurrence of `c` in a concatenation whose left part is
/// free of it and whose right part starts with it.
proof fn lemma_first_index_concat(s1: Seq<char>, s2: Seq<char>, c: char)
    requires
        forall|i: int| 0 <= i < s1.len() ==> (#[trigger] s1[i]) != c,
        s2.len() > 0,
        s2[0] == c,
    ensures
        first_index(s1 + s2, c) == s1.len(),
    decreases s1.len(),
{
    if s1.len() == 0 {
        assert(s1 + s2 =~= s2);
    } else {
        assert((s1 + s2)[0] == s1[0]);
        assert(forall|i: int| 0 <= i < s1.skip(1).len() ==> (#[trigger] s1.skip(1)[i]) != c);
        lemma_first_index_concat(s1.skip(1), s2, c);
        assert((s1 + s2).skip(1) =~= s1.skip(1) + s2);
    }
}

/// A text without commas splits into itself alone.
proof fn lemma_split_no_comma(x: Seq<char>)
    requires
        forall|i: int| 0 <= i < x.len() ==> (#[trigger] x[i]) != ',',
    ensures
        split_commas(x) == seq![x],
{
    lemma_first_index(x, ',');
    let fi = first_index(x, ',');
    if fi >= 0 {
        assert(x[fi] != ',');
    }
}

/// Two comma-free texts joined by comma-space split into the first and
/// the blank-prefixed second.
proof fn lemma_split_two(x: Seq<char>, y: Seq<char>)
    requires
        forall|i: int| 0 <= i < x.len() ==> (#[trigger] x[i]) != ',',
        forall|i: int| 0 <= i < y.len() ==> (#[trigger] y[i]) != ',',
    ensures
        split_commas(x + seq![',', ' '] + y) == seq![x, seq![' '] + y],
{
    let tail = seq![',', ' '] + y;
    let s = x + tail;
    assert(x + seq![',', ' '] + y =~= s);
    lemma_first_index_concat(x, tail, ',');
    assert(first_index(s, ',') == x.len());
    assert(s.take(x.len() as int) =~= x);
    assert(s.skip(x.len() as int + 1) =~= seq![' '] + y);
    assert(forall|i: int|
        0 <= i < (seq![' '] + y).len() ==> (#[trigger] (seq![' '] + y)[i]) != ',');
    lemma_split_no_comma(seq![' '] + y);
}

/// Three comma-free texts joined by comma-space split into the first
/// and the blank-prefixed others.
proof fn lemma_split_three(x: Seq<char>, y: Seq<char>, z: Seq<char>)
    requires
        forall|i: int| 0 <= i < x.len() ==> (#[trigger] x[i]) != ',',
        forall|i: int| 0 <= i < y.len() ==> (#[trigger] y[i]) != ',',
        forall|i: int| 0 <= i < z.len() ==> (#[trigger] z[i]) != ',',
    ensures
        split_commas(x + seq![',', ' '] + y + seq![',', ' '] + z) == seq![
            x,
            seq![' '] + y,
            seq![' '] + z,
        ],
{
    let tail = seq![',', ' '] + y + seq![',', ' '] + z;
    let s = x + tail;
    assert(x + seq![',', ' '] + y + seq![',', ' '] + z =~= s);
    lemma_first_index_concat(x, tail, ',');
    assert(first_index(s, ',') == x.len());
    assert(s.take(x.len() as int) =~= x);
    assert(s.skip(x.len() as int + 1) =~= (seq![' '] + y) + seq![',', ' '] + z);
    assert(forall|i: int|
        0 <= i < (seq![' '] + y).len() ==> (#[trigger] (seq![' '] + y)[i]) != ',');
    lemma_split_two(seq![' '] + y, z);
    assert((seq![' '] + y) + seq![',', ' '] + z =~= s.skip(x.len() as int + 1));
    assert(seq![x] + seq![seq![' '] + y, seq![' '] + z] =~= seq![
        x,
        seq![' '] + y,
        seq![' '] + z,
    ]);
}

/// What parsing finds in a rendered one-operand form: the paren right
/// after the name, a closing paren last, and the operand back intact.
proof fn lemma_parse_render_shape1(name: Seq<char>, a: Val)
    requires
        name.len() > 0,
        forall|i: int| 0 <= i < name.len() ==> (#[trigger] name[i]) != '(',
        renderable_val(a),
    ensures
        ({
            let s = name + seq!['('] + spec_render_val(a) + seq![')'];
            &&& first_index(s, '(') == name.len()
            &&& s.len() - name.len() >= 2
            &&& s.last() == ')'
            &&& lower_seq(s.take(name.len() as int)) == lower_seq(name)
            &&& split_commas(s.subrange(name.len() as int + 1, s.len() - 1)) == seq![
                spec_render_val(a),
            ]
            &&& spec_parse_val(trim(spec_render_val(a))) == Some(a)
        }),
{
    let ra = spec_render_val(a);
    let tail = seq!['('] + ra + seq![')'];
    let s = name + seq!['('] + ra + seq![')'];
    assert(s =~= name + tail);
    lemma_first_index_concat(name, tail, '(');
    assert(s.take(name.len() as int) =~= name);
    lemma_val_text_clean(a);
    assert(s.last() == ')');
    assert(s.subrange(name.len() as int + 1, s.len() - 1) =~= ra);
    lemma_split_no_comma(ra);
    lemma_trim_id(ra);
    lemma_val_text_round_trip(a);
}

/// What parsing finds in a rendered two-operand form.
proof fn lemma_parse_render_shape2(name: Seq<char>, a: Val, b: Val)
    requires
        name.len() > 0,
        forall|i: int| 0 <= i < name.len() ==> (#[trigger] name[i]) != '(',
        renderable_val(a),
        renderable_val(b),
    ensures
        ({
            let s = name + seq!['('] + spec_render_val(a) + seq![',', ' '] + spec_render_val(b)
                + seq![')'];
            &&& first_index(s, '(') == name.len()
            &&& s.len() - name.len() >= 2
            &&& s.last() == ')'
            &&& lower_seq(s.take(name.len() as int)) == lower_seq(name)
            &&& spec_args2(split_commas(s.subrange(name.len() as int + 1, s.len() - 1))) == Some(
                (a, b),
            )
        }),
{
    let ra = spec_render_val(a);
    let rb = spec_render_val(b);
    let inner = ra + seq![',', ' '] + rb;
    let tail = seq!['('] + inner + seq![')'];
    let s = name + seq!['('] + ra + seq![',', ' '] + rb + seq![')'];
    assert(s =~= name + tail);
    lemma_first_index_concat(name, tail, '(');
    assert(s.take(name.len() as int) =~= name);
    lemma_val_text_clean(a);
    lemma_val_text_clean(b);
    assert(s.last() == ')');
    assert(s.subrange(name.len() as int + 1, s.len() - 1) =~= inner);
    lemma_split_two(ra, rb);
    lemma_trim_id(ra);
    lemma_trim_space_prefix(rb);
    lemma_val_text_round_trip(a);
    lemma_val_text_round_trip(b);
}

/// What parsing finds in a rendered three-operand form.
proof fn lemma_parse_render_shape3(name: Seq<char>, a: Val, b: Val, c: Val)
    requires
        name.len() > 0,
        forall|i: int| 0 <= i < name.len() ==> (#[trigger] name[i]) != '(',
        renderable_val(a),
        renderable_val(b),
        renderable_val(c),
    ensures
        ({
            let s = name + seq!['('] + spec_render_val(a) + seq![',', ' '] + spec_render_val(b)
                + seq![',', ' '] + spec_render_val(c) + seq![')'];
            &&& first_index(s, '(') == name.len()
            &&& s.len() - name.len() >= 2
            &&& s.last() == ')'
            &&& lower_seq(s.take(name.len() as int)) == lower_seq(name)
            &&& spec_args3(split_commas(s.subrange(name.len() as int + 1, s.len() - 1))) == Some(
                (a, b, c),
            )
        }),
{
    let ra = spec_render_val(a);
    let rb = spec_render_val(b);
    let rc = spec_render_val(c);
    let inner = ra + seq![',', ' '] + rb + seq![',', ' '] + rc;
    let tail = seq!['('] + inner + seq![')'];
    let s = name + seq!['('] + ra + seq![',', ' '] + rb + seq![',', ' '] + rc + seq![')'];
    assert(s =~= name + tail);
    lemma_first_index_concat(name, tail, '(');
    assert(s.take(name.len() as int) =~= name);
    lemma_val_text_clean(a);
    lemma_val_text_clean(b);
    lemma_val_text_clean(c);
    assert(s.last() == ')');
    assert(s.subrange(name.len() as int + 1, s.len() - 1) =~= inner);
    lemma_split_three(ra, rb, rc);
    lemma_trim_id(ra);
    lemma_trim_space_prefix(rb);
    lemma_trim_space_prefix(rc);
    lemma_val_text_round_trip(a);
    lemma_val_text_round_trip(b);
    lemma_val_text_round_trip(c);
}

/// The round trip of one rendered form.
#[verifier::rlimit(100)]
#[verifier::spinoff_prover]
proof fn lemma_round_trip_halt()
    ensures
        spec_parse_opcode(spec_render_opcode(Opcode::Halt)) == Some(Opcode::Halt),
{
    let s = spec_render_opcode(Opcode::Halt);
    lemma_first_index(s, '(');
    assert(lower_seq(s) =~= seq!['h', 'a', 'l', 't']);
}

/// The round trip of one rendered form.
#[verifier::rlimit(100)]
#[verifier::spinoff_prover]
proof fn lemma_round_trip_ret()
    ensures
        spec_parse_opcode(spec_render_opcode(Opcode::Ret)) == Some(Opcode::Ret),
{
    let s = spec_render_opcode(Opcode::Ret);
    lemma_first_index(s, '(');
    assert(lower_seq(s) =~= seq!['r', 'e', 't']);
}

/// The round trip of one rendered form.
#[verifier::rlimit(100)]
#[verifier::spinoff_prover]
proof fn lemma_round_trip_noop()
    ensures
        spec_parse_opcode(spec_render_opcode(Opcode::Noop)) == Some(Opcode::Noop),
{
    let s = spec_render_opcode(Opcode::Noop);
    lemma_first_index(s, '(');
    assert(lower_seq(s) =~= seq!['n', 'o', 'o', 'p']);
}

/// The round trip of one rendered form.
#[verifier::rlimit(100)]
#[verifier::spinoff_prover]
proof fn lemma_round_trip_assign(a: Val, b: Val)
    requires
        renderable_val(a),
        renderable_val(b),
    ensures
        spec_parse_opcode(spec_render_opcode(Opcode::Assign(a, b))) == Some(Opcode::Assign(a, b)),
{
    let s = spec_render_opcode(Opcode::Assign(a, b));
    let name = seq!['S', 'e', 't'];
    lemma_parse_render_shape2(name, a, b);
    assert(s =~= name + seq!['('] + spec_render_val(a) + seq![',', ' '] + spec_render_val(b) + seq![')']);
    assert(lower_seq(name) =~= seq!['s', 'e', 't']);
}

/// The round trip of one rendered form.
#[verifier::rlimit(100)]
#[verifier::spinoff_prover]
proof fn lemma_round_trip_push(a: Val)
    requires
        renderable_val(a),
    ensures
        spec_parse_opcode(spec_render_opcode(Opcode::Push(a))) == Some(Opcode::Push(a)),
{
    let s = spec_render_opcode(Opcode::Push(a));
    let name = seq!['P', 'u', 's', 'h'];
    lemma_parse_render_shape1(name, a);
    assert(s =~= name + seq!['('] + spec_render_val(a) + seq![')']);
    assert(lower_seq(name) =~= seq!['p', 'u', 's', 'h']);
}

/// The round trip of one rendered form.
#[verifier::rlimit(100)]
#[verifier::spinoff_prover]
proof fn lemma_round_trip_pop(a: Val)
    requires
        renderable_val(a),
    ensures
        spec_parse_opcode(spec_render_opcode(Opcode::Pop(a))) == Some(Opcode::Pop(a)),
{
    let s = spec_render_opcode(Opcode::Pop(a));
    let name = seq!['P', 'o', 'p'];
    lemma_parse_render_shape1(name, a);
    assert(s =~= name + seq!['('] + spec_render_val(a) + seq![')']);
    assert(lower_seq(name) =~= seq!['p', 'o', 'p']);
}

/// The round trip of one rendered form.
#[verifier::rlimit(100)]
#[verifier::spinoff_prover]
proof fn lemma_round_trip_eq(a: Val, b: Val, c: Val)
    requires
        renderable_val(a),
        renderable_val(b),
        renderable_val(c),
    ensures
        spec_parse_opcode(spec_render_opcode(Opcode::Eq(a, b, c))) == Some(Opcode::Eq(a, b, c)),
{
    let s = spec_render_opcode(Opcode::Eq(a, b, c));
    let name = seq!['E', 'q'];
    lemma_parse_render_shape3(name, a, b, c);
    assert(s =~= name + seq!['('] + spec_render_val(a) + seq![',', ' '] + spec_render_val(b) + seq![',', ' '] + spec_render_val(c) + seq![')']);
    assert(lower_seq(name) =~= seq!['e', 'q']);
}

/// The round trip of one rendered form.
#[verifier::rlimit(100)]
#[verifier::spinoff_prover]
proof fn lemma_round_trip_gt(a: Val, b: Val, c: Val)
    requires
        renderable_val(a),
        renderable_val(b),
        renderable_val(c),
    ensures
        spec_parse_opcode(spec_render_opcode(Opcode::Gt(a, b, c))) == Some(Opcode::Gt(a, b, c)),
{
    let s = spec_render_opcode(Opcode::Gt(a, b, c));
    let name = seq!['G', 't'];
    lemma_parse_render_shape3(name, a, b, c);
    assert(s =~= name + seq!['('] + spec_render_val(a) + seq![',', ' '] + spec_render_val(b) + seq![',', ' '] + spec_render_val(c) + seq![')']);
    assert(lower_seq(name) =~= seq!['g', 't']);
}

/// The round trip of one rendered form.
#[verifier::rlimit(100)]
#[verifier::spinoff_prover]
proof fn lemma_round_trip_jmp(a: Val)
    requires
        renderable_val(a),
    ensures
        spec_parse_opcode(spec_render_opcode(Opcode::Jmp(a))) == Some(Opcode::Jmp(a)),
{
    let s = spec_render_opcode(Opcode::Jmp(a));
    let name = seq!['J', 'm', 'p'];
    lemma_parse_render_shape1(name, a);
    assert(s =~= name + seq!['('] + spec_render_val(a) + seq![')']);
    assert(lower_seq(name) =~= seq!['j', 'm', 'p']);
}

/// The round trip of one rendered form.
#[verifier::rlimit(100)]
#[verifier::spinoff_prover]
proof fn lemma_round_trip_jt(a: Val, b: Val)
    requires
        renderable_val(a),
        renderable_val(b),
    ensures
        spec_parse_opcode(spec_render_opcode(Opcode::Jt(a, b))) == Some(Opcode::Jt(a, b)),
{
    let s = spec_render_opcode(Opcode::Jt(a, b));
    let name = seq!['J', 't'];
    lemma_parse_render_shape2(name, a, b);
    assert(s =~= name + seq!['('] + spec_render_val(a) + seq![',', ' '] + spec_render_val(b) + seq![')']);
    assert(lower_seq(name) =~= seq!['j', 't']);
}

/// The round trip of one rendered form.
#[verifier::rlimit(100)]
#[verifier::spinoff_prover]
proof fn lemma_round_trip_jf(a: Val, b: Val)
    requires
        renderable_val(a),
        renderable_val(b),
    ensures
        spec_parse_opcode(spec_render_opcode(Opcode::Jf(a, b))) == Some(Opcode::Jf(a, b)),
{
    let s = spec_render_opcode(Opcode::Jf(a, b));
    let name = seq!['J', 'f'];
    lemma_parse_render_shape2(name, a, b);
    assert(s =~= name + seq!['('] + spec_render_val(a) + seq![',', ' '] + spec_render_val(b) + seq![')']);
    assert(lower_seq(name) =~= seq!['j', 'f']);
}

/// The round trip of one rendered form.
#[verifier::rlimit(100)]
#[verifier::spinoff_prover]
proof fn lemma_round_trip_add(a: Val, b: Val, c: Val)
    requires
        renderable_val(a),
        renderable_val(b),
        renderable_val(c),
    ensures
        spec_parse_opcode(spec_render_opcode(Opcode::Add(a, b, c))) == Some(Opcode::Add(a, b, c)),
{
    let s = spec_render_opcode(Opcode::Add(a, b, c));
    let name = seq!['A', 'd', 'd'];
    lemma_parse_render_shape3(name, a, b, c);
    assert(s =~= name + seq!['('] + spec_render_val(a) + seq![',', ' '] + spec_render_val(b) + seq![',', ' '] + spec_render_val(c) + seq![')']);
    assert(lower_seq(name) =~= seq!['a', 'd', 'd']);
}

/// The round trip of one rendered form.
#[verifier::rlimit(100)]
#[verifier::spinoff_prover]
proof fn lemma_round_trip_mult(a: Val, b: Val, c: Val)
    requires
        renderable_val(a),
        renderable_val(b),
        renderable_val(c),
    ensures
        spec_parse_opcode(spec_render_opcode(Opcode::Mult(a, b, c))) == Some(Opcode::Mult(a, b, c)),
{
    let s = spec_render_opcode(Opcode::Mult(a, b, c));
    let name = seq!['M', 'u', 'l', 't'];
    lemma_parse_render_shape3(name, a, b, c);
    assert(s =~= name + seq!['('] + spec_render_val(a) + seq![',', ' '] + spec_render_val(b) + seq![',', ' '] + spec_render_val(c) + seq![')']);
    assert(lower_seq(name) =~= seq!['m', 'u', 'l', 't']);
}

/// The round trip of one rendered form.
#[verifier::rlimit(100)]
#[verifier::spinoff_prover]
proof fn lemma_round_trip_mod(a: Val, b: Val, c: Val)
    requires
        renderable_val(a),
        renderable_val(b),
        renderable_val(c),
    ensures
        spec_parse_opcode(spec_render_opcode(Opcode::Mod(a, b, c))) == Some(Opcode::Mod(a, b, c)),
{
    let s = spec_render_opcode(Opcode::Mod(a, b, c));
    let name = seq!['M', 'o', 'd'];
    lemma_parse_render_shape3(name, a, b, c);
    assert(s =~= name + seq!['('] + spec_render_val(a) + seq![',', ' '] + spec_render_val(b) + seq![',', ' '] + spec_render_val(c) + seq![')']);
    assert(lower_seq(name) =~= seq!['m', 'o', 'd']);
}

/// The round trip of one rendered form.
#[verifier::rlimit(100)]
#[verifier::spinoff_prover]
proof fn lemma_round_trip_and(a: Val, b: Val, c: Val)
    requires
        renderable_val(a),
        renderable_val(b),
        renderable_val(c),
    ensures
        spec_parse_opcode(spec_render_opcode(Opcode::And(a, b, c))) == Some(Opcode::And(a, b, c)),
{
    let s = spec_render_opcode(Opcode::And(a, b, c));
    let name = seq!['A', 'n', 'd'];
    lemma_parse_render_shape3(name, a, b, c);
    assert(s =~= name + seq!['('] + spec_render_val(a) + seq![',', ' '] + spec_render_val(b) + seq![',', ' '] + spec_render_val(c) + seq![')']);
    assert(lower_seq(name) =~= seq!['a', 'n', 'd']);
}

/// The round trip of one rendered form.
#[verifier::rlimit(100)]
#[verifier::spinoff_prover]
proof fn lemma_round_trip_or(a: Val, b: Val, c: Val)
    requires
        renderable_val(a),
        renderable_val(b),
        renderable_val(c),
    ensures
        spec_parse_opcode(spec_render_opcode(Opcode::Or(a, b, c))) == Some(Opcode::Or(a, b, c)),
{
    let s = spec_render_opcode(Opcode::Or(a, b, c));
    let name = seq!['O', 'r'];
    lemma_parse_render_shape3(name, a, b, c);
    assert(s =~= name + seq!['('] + spec_render_val(a) + seq![',', ' '] + spec_render_val(b) + seq![',', ' '] + spec_render_val(c) + seq![')']);
    assert(lower_seq(name) =~= seq!['o', 'r']);
}

/// The round trip of one rendered form.
#[verifier::rlimit(100)]
#[verifier::spinoff_prover]
proof fn lemma_round_trip_not(a: Val, b: Val)
    requires
        renderable_val(a),
        renderable_val(b),
    ensures
        spec_parse_opcode(spec_render_opcode(Opcode::Not(a, b))) == Some(Opcode::Not(a, b)),
{
    let s = spec_render_opcode(Opcode::Not(a, b));
    let name = seq!['N', 'o', 't'];
    lemma_parse_render_shape2(name, a, b);
    assert(s =~= name + seq!['('] + spec_render_val(a) + seq![',', ' '] + spec_render_val(b) + seq![')']);
    assert(lower_seq(name) =~= seq!['n', 'o', 't']);
}

/// The round trip of one rendered form.
#[verifier::rlimit(100)]
#[verifier::spinoff_prover]
proof fn lemma_round_trip_rmem(a: Val, b: Val)
    requires
        renderable_val(a),
        renderable_val(b),
    ensures
        spec_parse_opcode(spec_render_opcode(Opcode::Rmem(a, b))) == Some(Opcode::Rmem(a, b)),
{
    let s = spec_render_opcode(Opcode::Rmem(a, b));
    let name = seq!['R', 'm', 'e', 'm'];
    lemma_parse_render_shape2(name, a, b);
    assert(s =~= name + seq!['('] + spec_render_val(a) + seq![',', ' '] + spec_render_val(b) + seq![')']);
    assert(lower_seq(name) =~= seq!['r', 'm', 'e', 'm']);
}

/// The round trip of one rendered form.
#[verifier::rlimit(100)]
#[verifier::spinoff_prover]
proof fn lemma_round_trip_wmem(a: Val, b: Val)
    requires
        renderable_val(a),
        renderable_val(b),
    ensures
        spec_parse_opcode(spec_render_opcode(Opcode::Wmem(a, b))) == Some(Opcode::Wmem(a, b)),
{
    let s = spec_render_opcode(Opcode::Wmem(a, b));
    let name = seq!['W', 'm', 'e', 'm'];
    lemma_parse_render_shape2(name, a, b);
    assert(s =~= name + seq!['('] + spec_render_val(a) + seq![',', ' '] + spec_render_val(b) + seq![')']);
    assert(lower_seq(name) =~= seq!['w', 'm', 'e', 'm']);
}

/// The round trip of one rendered form.
#[verifier::rlimit(100)]
#[verifier::spinoff_prover]
proof fn lemma_round_trip_call(a: Val)
    requires
        renderable_val(a),
    ensures
        spec_parse_opcode(spec_render_opcode(Opcode::Call(a))) == Some(Opcode::Call(a)),
{
    let s = spec_render_opcode(Opcode::Call(a));
    let name = seq!['C', 'a', 'l', 'l'];
    lemma_parse_render_shape1(name, a);
    assert(s =~= name + seq!['('] + spec_render_val(a) + seq![')']);
    assert(lower_seq(name) =~= seq!['c', 'a', 'l', 'l']);
}

/// The round trip of one rendered form.
#[verifier::rlimit(100)]
#[verifier::spinoff_prover]
proof fn lemma_round_trip_out(a: Val)
    requires
        renderable_val(a),
    ensures
        spec_parse_opcode(spec_render_opcode(Opcode::Out(a))) == Some(Opcode::Out(a)),
{
    let s = spec_render_opcode(Opcode::Out(a));
    let name = seq!['O', 'u', 't'];
    lemma_parse_render_shape1(name, a);
    assert(s =~= name + seq!['('] + spec_render_val(a) + seq![')']);
    assert(lower_seq(name) =~= seq!['o', 'u', 't']);
}

/// The round trip of one rendered form.
#[verifier::rlimit(100)]
#[verifier::spinoff_prover]
proof fn lemma_round_trip_in(a: Val)
    requires
        renderable_val(a),
    ensures
        spec_parse_opcode(spec_render_opcode(Opcode::In(a))) == Some(Opcode::In(a)),
{
    let s = spec_render_opcode(Opcode::In(a));
    let name = seq!['I', 'n'];
    lemma_parse_render_shape1(name, a);
    assert(s =~= name + seq!['('] + spec_render_val(a) + seq![')']);
    assert(lower_seq(name) =~= seq!['i', 'n']);
}

/// Parsing inverts printing: the canonical mnemonic text of any
/// instruction whose operands are in the machine's domain parses back
/// to that instruction.
pub proof fn lemma_opcode_text_round_trip(op: Opcode)
    requires
        renderable(op),
    ensures
        spec_parse_opcode(spec_render_opcode(op)) == Some(op),
{
    match op {
        Opcode::Halt => lemma_round_trip_halt(),
        Opcode::Ret => lemma_round_trip_ret(),
        Opcode::Noop => lemma_round_trip_noop(),
        Opcode::Assign(a, b) => lemma_round_trip_assign(a, b),
        Opcode::Push(a) => lemma_round_trip_push(a),
        Opcode::Pop(a) => lemma_round_trip_pop(a),
        Opcode::Eq(a, b, c) => lemma_round_trip_eq(a, b, c),
        Opcode::Gt(a, b, c) => lemma_round_trip_gt(a, b, c),
        Opcode::Jmp(a) => lemma_round_trip_jmp(a),
        Opcode::Jt(a, b) => lemma_round_trip_jt(a, b),
        Opcode::Jf(a, b) => lemma_round_trip_jf(a, b),
        Opcode::Add(a, b, c) => lemma_round_trip_add(a, b, c),
        Opcode::Mult(a, b, c) => lemma_round_trip_mult(a, b, c),
        Opcode::Mod(a, b, c) => lemma_round_trip_mod(a, b, c),
        Opcode::And(a, b, c) => lemma_round_trip_and(a, b, c),
        Opcode::Or(a, b, c) => lemma_round_trip_or(a, b, c),
        Opcode::Not(a, b) => lemma_round_trip_not(a, b),
        Opcode::Rmem(a, b) => lemma_round_trip_rmem(a, b),
        Opcode::Wmem(a, b) => lemma_round_trip_wmem(a, b),
        Opcode::Call(a) => lemma_round_trip_call(a),
        Opcode::Out(a) => lemma_round_trip_out(a),
        Opcode::In(a) => lemma_round_trip_in(a),
    }
}

impl core::str::FromStr for Opcode {
    type Err = ParseError;

    /// Parse an instruction from its mnemonic text.
    fn from_str(s: &str) -> Result<Opcode, ParseError> {
        match parse_opcode(s) {
            Some(op) => Ok(op),
            None => Err(ParseError),
        }
    }
}

impl core::str::FromStr for Val {
    type Err = ParseError;

    /// Parse an operand from its text, whitespace around it tolerated.
    fn from_str(s: &str) -> Result<Val, ParseError> {
        let cs = chars_of(s);
        match parse_operand(&cs) {
            Some(v) => Ok(v),
            None => Err(ParseError),
        }
    }
}

} // verus!
