//! Execution of a decoded program.
//!
//! The interpreter owns a data stack, a call stack and a sparse heap, and is
//! driven one instruction at a time. Output is collected into a byte buffer
//! and input is read from a byte buffer supplied at construction, so a
//! caller performs real input and output around the machine. The label
//! table is built once, before any step, so forward jumps resolve; a label
//! marked twice is rejected at load time.
use vstd::prelude::*;

use std::collections::HashMap;

use crate::Instruction;
use crate::Label;
use crate::parser::lemma_wrap_i64_near;
use crate::parser::wrap_i64;

verus! {

broadcast use vstd::std_specs::hash::group_hash_axioms;

use vstd::math::abs;

/// A fatal failure while loading a program.
#[derive(Clone, Copy, PartialEq, Eq, Structural, Debug)]
pub enum LoadError {
    /// Two mark instructions carry the same label value.
    DuplicateLabel,
}

/// A fatal failure while executing a program. The first runtime error halts
/// the machine; it never continues past one.
#[derive(Clone, Copy, PartialEq, Eq, Structural, Debug)]
pub enum RuntimeError {
    /// The data stack held fewer values than the instruction needs.
    StackUnderflow,
    /// A return was executed with no pending subroutine call.
    CallStackUnderflow,
    /// A jump or call names a label never marked in the program.
    UnknownLabel,
    /// The divisor of a division or modulo was zero.
    DivisionByZero,
    /// The value written as a character lies outside 0 to 255.
    InvalidCharacterCode,
    /// The input was exhausted, or a read line held no well-formed number.
    EndOfInput,
    /// The instruction pointer ran past the program without an explicit end.
    ProgramOverrun,
}

/// Whether the machine still runs, ended normally, or failed.
#[derive(Clone, Copy, PartialEq, Eq, Structural, Debug)]
pub enum Status {
    Running,
    Done,
    Failed(RuntimeError),
}

/// The mathematical state of the machine: the program and label table,
/// fixed after loading, and the mutable stacks, heap, buffers and status.
#[verifier::ext_equal]
pub struct VmState {
    pub ip: usize,
    pub program: Seq<Instruction>,
    pub labels: Map<Label, usize>,
    pub stack: Seq<i64>,
    pub call_stack: Seq<usize>,
    pub heap: Map<i64, i64>,
    pub input: Seq<u8>,
    pub in_pos: usize,
    pub output: Seq<u8>,
    pub status: Status,
}

/// The label table of a program: the position of every mark instruction,
/// the later of two equal labels winning (loading rejects that case).
pub open spec fn labels_of(p: Seq<Instruction>) -> Map<Label, usize>
    decreases p.len(),
{
    if p.len() == 0 {
        Map::empty()
    } else {
        let m = labels_of(p.drop_last());
        match p.last() {
            Instruction::MarkLocation(l) => m.insert(l, (p.len() - 1) as usize),
            _ => m,
        }
    }
}

/// Whether an instruction marks a label.
pub open spec fn is_mark(i: Instruction) -> bool {
    i matches Instruction::MarkLocation(_)
}

/// The label an instruction marks.
pub open spec fn mark_of(i: Instruction) -> Label
    recommends
        is_mark(i),
{
    i->MarkLocation_0
}

/// Whether some label value is marked at two distinct positions.
pub open spec fn has_duplicate_label(p: Seq<Instruction>) -> bool {
    exists|i: int, j: int|
        0 <= i < j < p.len() && is_mark(#[trigger] p[i]) && is_mark(#[trigger] p[j]) && mark_of(
            p[i],
        ) == mark_of(p[j])
}

/// The state a freshly loaded machine starts in.
pub open spec fn initial_state(program: Seq<Instruction>, input: Seq<u8>) -> VmState {
    VmState {
        ip: 0,
        program,
        labels: labels_of(program),
        stack: Seq::empty(),
        call_stack: Seq::empty(),
        heap: Map::empty(),
        input,
        in_pos: 0,
        output: Seq::empty(),
        status: Status::Running,
    }
}

/// Well-formedness: the instruction pointer, every return address and every
/// label position lie within the program, and the input cursor within the
/// input.
pub open spec fn wf(s: VmState) -> bool {
    &&& s.ip <= s.program.len()
    &&& forall|j: int|
        0 <= j < s.call_stack.len() ==> #[trigger] s.call_stack[j] <= s.program.len()
    &&& forall|l: Label|
        #[trigger] s.labels.contains_key(l) ==> s.labels[l] < s.program.len()
    &&& s.in_pos <= s.input.len()
}

/// The label table contains exactly the marked labels, each mapped to a
/// position carrying its mark.
proof fn lemma_labels_of_props(p: Seq<Instruction>)
    requires
        p.len() <= usize::MAX,
    ensures
        forall|l: Label| #[trigger]
            labels_of(p).contains_key(l) ==> 0 <= labels_of(p)[l] < p.len() && p[labels_of(
                p,
            )[l] as int] == Instruction::MarkLocation(l),
        forall|j: int|
            0 <= j < p.len() && is_mark(#[trigger] p[j]) ==> labels_of(p).contains_key(
                mark_of(p[j]),
            ),
    decreases p.len(),
{
    if p.len() == 0 {
    } else {
        lemma_labels_of_props(p.drop_last());
        let q = p.drop_last();
        assert(forall|j: int| 0 <= j < q.len() ==> q[j] == p[j]);
        assert forall|j: int| 0 <= j < p.len() && is_mark(#[trigger] p[j]) implies labels_of(
            p,
        ).contains_key(mark_of(p[j])) by {
            if j < p.len() - 1 {
                assert(q[j] == p[j]);
            }
        }
        assert forall|l: Label| #[trigger] labels_of(p).contains_key(l) implies 0 <= labels_of(
            p,
        )[l] < p.len() && p[labels_of(p)[l] as int] == Instruction::MarkLocation(l) by {
            match p.last() {
                Instruction::MarkLocation(l2) => {
                    assert(labels_of(p) == labels_of(q).insert(l2, (p.len() - 1) as usize));
                    assert(p[p.len() - 1] == p.last());
                    if l != l2 {
                        assert(labels_of(q).contains_key(l));
                        assert(labels_of(p)[l] == labels_of(q)[l]);
                        assert(q[labels_of(q)[l] as int] == p[labels_of(q)[l] as int]);
                    }
                },
                _ => {
                    assert(labels_of(p) == labels_of(q));
                    assert(q[labels_of(q)[l] as int] == p[labels_of(q)[l] as int]);
                },
            }
        }
    }
}

/// With no duplicate label, the table sends every marked label to the one
/// position that marks it: in particular a label marked only later in the
/// program is already resolved, so forward jumps succeed.
pub proof fn lemma_label_resolution(p: Seq<Instruction>, j: int, l: Label)
    requires
        p.len() <= usize::MAX,
        !has_duplicate_label(p),
        0 <= j < p.len(),
        p[j] == Instruction::MarkLocation(l),
    ensures
        labels_of(p).contains_key(l),
        labels_of(p)[l] == j,
    decreases p.len(),
{
    let q = p.drop_last();
    assert(forall|i: int| 0 <= i < q.len() ==> q[i] == p[i]);
    assert(!has_duplicate_label(q)) by {
        if has_duplicate_label(q) {
            let (a, b) = choose|a: int, b: int|
                0 <= a < b < q.len() && is_mark(#[trigger] q[a]) && is_mark(#[trigger] q[b])
                    && mark_of(q[a]) == mark_of(q[b]);
            assert(is_mark(p[a]) && is_mark(p[b]) && mark_of(p[a]) == mark_of(p[b]));
            assert(has_duplicate_label(p));
        }
    }
    assert(p[p.len() - 1] == p.last());
    if j == p.len() - 1 {
        match p.last() {
            Instruction::MarkLocation(l2) => {
                assert(l2 == l);
                assert(labels_of(p) == labels_of(q).insert(l2, (p.len() - 1) as usize));
            },
            _ => {
                assert(false);
            },
        }
    } else {
        match p.last() {
            Instruction::MarkLocation(l2) => {
                if l2 == l {
                    assert(is_mark(p[j]) && is_mark(p[p.len() - 1]) && mark_of(p[j]) == mark_of(
                        p[p.len() - 1],
                    ));
                    assert(has_duplicate_label(p));
                    assert(false);
                } else {
                    lemma_label_resolution(q, j, l);
                    assert(labels_of(p) == labels_of(q).insert(l2, (p.len() - 1) as usize));
                    assert(labels_of(p)[l] == labels_of(q)[l]);
                }
            },
            _ => {
                lemma_label_resolution(q, j, l);
                assert(labels_of(p) == labels_of(q));
            },
        }
    }
}

/// Truncating division as the machine performs it: the magnitude quotient
/// carries the sign of the operands, and the one overflowing quotient,
/// i64::MIN divided by -1, wraps back to i64::MIN.
pub open spec fn vm_div(a: i64, b: i64) -> i64
    recommends
        b != 0,
{
    if a == i64::MIN && b == -1 {
        i64::MIN
    } else {
        let q = abs(a as int) / abs(b as int);
        if (a < 0) != (b < 0) {
            (-q) as i64
        } else {
            q as i64
        }
    }
}

/// Truncating remainder: the magnitude remainder carries the sign of the
/// dividend, so `a == b * vm_div(a, b) + vm_rem(a, b)` whenever the
/// division does not wrap.
pub open spec fn vm_rem(a: i64, b: i64) -> i64
    recommends
        b != 0,
{
    let r = abs(a as int) % abs(b as int);
    if a < 0 {
        (-r) as i64
    } else {
        r as i64
    }
}

/// The decimal digits of a magnitude, most significant first, as ASCII
/// bytes.
pub open spec fn dec_digits(n: nat) -> Seq<u8>
    decreases n,
{
    if n < 10 {
        seq![(48 + n) as u8]
    } else {
        dec_digits(n / 10) + seq![(48 + n % 10) as u8]
    }
}

/// The decimal text of a value: a minus sign and the magnitude's digits
/// for negatives, the digits alone otherwise.
pub open spec fn dec_repr(v: i64) -> Seq<u8> {
    if v < 0 {
        seq![45u8] + dec_digits((-(v as int)) as nat)
    } else {
        dec_digits(v as nat)
    }
}

/// Position of the first line-feed byte, or the length when there is none.
pub open spec fn nl_pos(s: Seq<u8>) -> int
    decreases s.len(),
{
    if s.len() == 0 {
        0
    } else if s[0] == 10 {
        0
    } else {
        1 + nl_pos(s.drop_first())
    }
}

/// Whether a byte is an ASCII decimal digit.
pub open spec fn is_digit(b: u8) -> bool {
    48 <= b <= 57
}

/// The value of a digit string read most significant digit first.
pub open spec fn digits_value(s: Seq<u8>) -> int
    decreases s.len(),
{
    if s.len() == 0 {
        0
    } else {
        digits_value(s.drop_last()) * 10 + (s.last() - 48)
    }
}

/// Whether a byte line is a well-formed decimal integer: an optional minus
/// sign followed by at least one digit and nothing else.
pub open spec fn dec_line_ok(s: Seq<u8>) -> bool {
    if s.len() >= 1 && s[0] == 45 {
        s.len() >= 2 && forall|j: int| 1 <= j < s.len() ==> is_digit(#[trigger] s[j])
    } else {
        s.len() >= 1 && forall|j: int| 0 <= j < s.len() ==> is_digit(#[trigger] s[j])
    }
}

/// The integer a well-formed decimal line denotes.
pub open spec fn dec_line_value(s: Seq<u8>) -> int
    recommends
        dec_line_ok(s),
{
    if s.len() >= 1 && s[0] == 45 {
        -digits_value(s.drop_first())
    } else {
        digits_value(s)
    }
}

/// A machine halted by the given runtime error, its stores untouched.
pub open spec fn halt_err(s: VmState, e: RuntimeError) -> VmState {
    VmState { status: Status::Failed(e), ..s }
}

/// One step of the machine: executes the instruction under the instruction
/// pointer, exactly as `Interpreter::step` does. A machine that is already
/// halted makes no progress, and a pointer that has run past the program
/// is an overrun: a program must end through its explicit end instruction.
/// A conditional jump consults the label table whether or not it branches,
/// so a jump to an unmarked label always fails.
pub open spec fn spec_step(s: VmState) -> VmState {
    if !(s.status is Running) {
        s
    } else if s.ip >= s.program.len() {
        halt_err(s, RuntimeError::ProgramOverrun)
    } else {
        let l = s.stack.len() as int;
        let cl = s.call_stack.len() as int;
        let next = (s.ip + 1) as usize;
        match s.program[s.ip as int] {
            Instruction::PushNrOnStack(n) => VmState { ip: next, stack: s.stack.push(n), ..s },
            Instruction::DuplicateTopStack => if l < 1 {
                halt_err(s, RuntimeError::StackUnderflow)
            } else {
                VmState { ip: next, stack: s.stack.push(s.stack[l - 1]), ..s }
            },
            Instruction::CopyNthOnTop(n) => if 0 <= n && n < l {
                VmState { ip: next, stack: s.stack.push(s.stack[l - 1 - n]), ..s }
            } else {
                halt_err(s, RuntimeError::StackUnderflow)
            },
            Instruction::SwapTopTwoOnStack => if l < 2 {
                halt_err(s, RuntimeError::StackUnderflow)
            } else {
                VmState {
                    ip: next,
                    stack: s.stack.take(l - 2).push(s.stack[l - 1]).push(s.stack[l - 2]),
                    ..s
                }
            },
            Instruction::DiscardTopOfStack => if l < 1 {
                halt_err(s, RuntimeError::StackUnderflow)
            } else {
                VmState { ip: next, stack: s.stack.take(l - 1), ..s }
            },
            Instruction::SlideNOfTopOfStackKeepTopItem(n) => if 0 <= n && n + 1 <= l {
                VmState { ip: next, stack: s.stack.take(l - 1 - n).push(s.stack[l - 1]), ..s }
            } else {
                halt_err(s, RuntimeError::StackUnderflow)
            },
            Instruction::Addition => if l < 2 {
                halt_err(s, RuntimeError::StackUnderflow)
            } else {
                VmState {
                    ip: next,
                    stack: s.stack.take(l - 2).push(
                        wrap_i64(s.stack[l - 2] + s.stack[l - 1]),
                    ),
                    ..s
                }
            },
            Instruction::Substraction => if l < 2 {
                halt_err(s, RuntimeError::StackUnderflow)
            } else {
                VmState {
                    ip: next,
                    stack: s.stack.take(l - 2).push(
                        wrap_i64(s.stack[l - 2] - s.stack[l - 1]),
                    ),
                    ..s
                }
            },
            Instruction::Multiplication => if l < 2 {
                halt_err(s, RuntimeError::StackUnderflow)
            } else {
                VmState {
                    ip: next,
                    stack: s.stack.take(l - 2).push(
                        wrap_i64(s.stack[l - 2] * s.stack[l - 1]),
                    ),
                    ..s
                }
            },
            Instruction::IntegerDivision => if l < 2 {
                halt_err(s, RuntimeError::StackUnderflow)
            } else if s.stack[l - 1] == 0 {
                halt_err(s, RuntimeError::DivisionByZero)
            } else {
                VmState {
                    ip: next,
                    stack: s.stack.take(l - 2).push(vm_div(s.stack[l - 2], s.stack[l - 1])),
                    ..s
                }
            },
            Instruction::Modulo => if l < 2 {
                halt_err(s, RuntimeError::StackUnderflow)
            } else if s.stack[l - 1] == 0 {
                halt_err(s, RuntimeError::DivisionByZero)
            } else {
                VmState {
                    ip: next,
                    stack: s.stack.take(l - 2).push(vm_rem(s.stack[l - 2], s.stack[l - 1])),
                    ..s
                }
            },
            Instruction::StoreInHeap => if l < 2 {
                halt_err(s, RuntimeError::StackUnderflow)
            } else {
                VmState {
                    ip: next,
                    stack: s.stack.take(l - 2),
                    heap: s.heap.insert(s.stack[l - 2], s.stack[l - 1]),
                    ..s
                }
            },
            Instruction::RetreiveFomHeap => if l < 1 {
                halt_err(s, RuntimeError::StackUnderflow)
            } else {
                let addr = s.stack[l - 1];
                let v = if s.heap.contains_key(addr) {
                    s.heap[addr]
                } else {
                    0i64
                };
                VmState { ip: next, stack: s.stack.take(l - 1).push(v), ..s }
            },
            Instruction::MarkLocation(_) => VmState { ip: next, ..s },
            Instruction::CallSubroutine(lb) => if s.labels.contains_key(lb) {
                VmState { ip: s.labels[lb], call_stack: s.call_stack.push(next), ..s }
            } else {
                halt_err(s, RuntimeError::UnknownLabel)
            },
            Instruction::Jmp(lb) => if s.labels.contains_key(lb) {
                VmState { ip: s.labels[lb], ..s }
            } else {
                halt_err(s, RuntimeError::UnknownLabel)
            },
            Instruction::JmpTopZero(lb) => if l < 1 {
                halt_err(s, RuntimeError::StackUnderflow)
            } else if !s.labels.contains_key(lb) {
                halt_err(s, RuntimeError::UnknownLabel)
            } else {
                VmState {
                    ip: if s.stack[l - 1] == 0 {
                        s.labels[lb]
                    } else {
                        next
                    },
                    stack: s.stack.take(l - 1),
                    ..s
                }
            },
            Instruction::JmpTopNegative(lb) => if l < 1 {
                halt_err(s, RuntimeError::StackUnderflow)
            } else if !s.labels.contains_key(lb) {
                halt_err(s, RuntimeError::UnknownLabel)
            } else {
                VmState {
                    ip: if s.stack[l - 1] < 0 {
                        s.labels[lb]
                    } else {
                        next
                    },
                    stack: s.stack.take(l - 1),
                    ..s
                }
            },
            Instruction::Ret => if cl < 1 {
                halt_err(s, RuntimeError::CallStackUnderflow)
            } else {
                VmState { ip: s.call_stack[cl - 1], call_stack: s.call_stack.take(cl - 1), ..s }
            },
            Instruction::End => VmState { status: Status::Done, ..s },
            Instruction::OutputChar => if l < 1 {
                halt_err(s, RuntimeError::StackUnderflow)
            } else if 0 <= s.stack[l - 1] && s.stack[l - 1] <= 255 {
                VmState {
                    ip: next,
                    stack: s.stack.take(l - 1),
                    output: s.output.push(s.stack[l - 1] as u8),
                    ..s
                }
            } else {
                halt_err(s, RuntimeError::InvalidCharacterCode)
            },
            Instruction::OutputNum => if l < 1 {
                halt_err(s, RuntimeError::StackUnderflow)
            } else {
                VmState {
                    ip: next,
                    stack: s.stack.take(l - 1),
                    output: s.output + dec_repr(s.stack[l - 1]),
                    ..s
                }
            },
            Instruction::ReadChar => if s.in_pos < s.input.len() {
                VmState {
                    ip: next,
                    stack: s.stack.push(s.input[s.in_pos as int] as i64),
                    in_pos: (s.in_pos + 1) as usize,
                    ..s
                }
            } else {
                halt_err(s, RuntimeError::EndOfInput)
            },
            Instruction::ReadNum => if s.in_pos >= s.input.len() {
                halt_err(s, RuntimeError::EndOfInput)
            } else {
                let start = s.in_pos as int;
                let endp = start + nl_pos(s.input.skip(start));
                let line = s.input.subrange(start, endp);
                let newpos = if endp < s.input.len() {
                    (endp + 1) as usize
                } else {
                    s.input.len() as usize
                };
                if dec_line_ok(line) && -0x8000_0000_0000_0000 <= dec_line_value(line)
                    < 0x8000_0000_0000_0000 {
                    VmState {
                        ip: next,
                        stack: s.stack.push(dec_line_value(line) as i64),
                        in_pos: newpos,
                        ..s
                    }
                } else {
                    halt_err(s, RuntimeError::EndOfInput)
                }
            },
        }
    }
}

/// `nl_pos` lies within bounds and points at a line feed when one exists.
proof fn lemma_nl_pos_bounds(s: Seq<u8>)
    ensures
        0 <= nl_pos(s) <= s.len(),
        nl_pos(s) < s.len() ==> s[nl_pos(s)] == 10,
    decreases s.len(),
{
    if s.len() == 0 {
    } else if s[0] == 10 {
    } else {
        lemma_nl_pos_bounds(s.drop_first());
        if nl_pos(s) < s.len() {
            assert(s.drop_first()[nl_pos(s.drop_first())] == s[nl_pos(s)]);
        }
    }
}

/// The first line feed of `s` stands at `i` exactly when `s[i]` is one and
/// nothing before it is.
proof fn lemma_nl_pos_at(s: Seq<u8>, i: int)
    requires
        0 <= i < s.len(),
        s[i] == 10,
        forall|j: int| 0 <= j < i ==> s[j] != 10,
    ensures
        nl_pos(s) == i,
    decreases i,
{
    if i == 0 {
    } else {
        assert(s[0] != 10);
        let d = s.drop_first();
        assert(d[i - 1] == s[i]);
        assert(forall|j: int| 0 <= j < i - 1 ==> d[j] == s[j + 1] && s[j + 1] != 10);
        lemma_nl_pos_at(d, i - 1);
    }
}

/// A digit string's value is never negative.
proof fn lemma_digits_value_nonneg(s: Seq<u8>)
    requires
        forall|j: int| 0 <= j < s.len() ==> is_digit(#[trigger] s[j]),
    ensures
        digits_value(s) >= 0,
    decreases s.len(),
{
    if s.len() > 0 {
        let q = s.drop_last();
        assert(forall|j: int| 0 <= j < q.len() ==> q[j] == s[j]);
        lemma_digits_value_nonneg(q);
    }
}

/// Reading further digits never shrinks the value.
proof fn lemma_digits_value_monotone(s: Seq<u8>, k: int)
    requires
        0 <= k <= s.len(),
        forall|j: int| 0 <= j < s.len() ==> is_digit(#[trigger] s[j]),
    ensures
        digits_value(s.take(k)) <= digits_value(s),
    decreases s.len(),
{
    if k == s.len() {
        assert(s.take(k) =~= s);
    } else {
        let q = s.drop_last();
        assert(forall|j: int| 0 <= j < q.len() ==> q[j] == s[j]);
        lemma_digits_value_monotone(q, k);
        assert(q.take(k) =~= s.take(k));
        lemma_digits_value_nonneg(q);
    }
}

/// Appends the decimal digits of a magnitude, most significant first.
fn push_digits(n: u64, out: &mut Vec<u8>)
    ensures
        final(out)@ == old(out)@ + dec_digits(n as nat),
    decreases n,
{
    if n < 10 {
        out.push(48 + n as u8);
        proof {
            assert(old(out)@.push((48 + n as nat) as u8) =~= old(out)@ + dec_digits(n as nat));
        }
    } else {
        push_digits(n / 10, out);
        out.push(48 + (n % 10) as u8);
        proof {
            assert((old(out)@ + dec_digits((n / 10) as nat)).push((48 + (n as nat) % 10) as u8)
                =~= old(out)@ + dec_digits(n as nat));
        }
    }
}

/// Truncating division on the machine's words; see [`vm_div`].
fn div_i64(a: i64, b: i64) -> (q: i64)
    requires
        b != 0,
    ensures
        q == vm_div(a, b),
{
    let mag_a: u64 = if a == i64::MIN {
        0x8000_0000_0000_0000u64
    } else if a < 0 {
        (-a) as u64
    } else {
        a as u64
    };
    let mag_b: u64 = if b == i64::MIN {
        0x8000_0000_0000_0000u64
    } else if b < 0 {
        (-b) as u64
    } else {
        b as u64
    };
    proof {
        assert(mag_a as int == abs(a as int));
        assert(mag_b as int == abs(b as int));
    }
    let qm = mag_a / mag_b;
    proof {
        vstd::arithmetic::div_mod::lemma_div_nonincreasing(mag_a as int, mag_b as int);
    }
    if a == i64::MIN && b == -1 {
        return i64::MIN;
    }
    let neg = (a < 0) != (b < 0);
    if neg {
        if qm == 0x8000_0000_0000_0000 {
            i64::MIN
        } else {
            -(qm as i64)
        }
    } else {
        proof {
            if qm >= 0x8000_0000_0000_0000 {
                assert(mag_a == 0x8000_0000_0000_0000);
                assert(a == i64::MIN);
                assert(b < 0);
                assert(mag_b >= 2);
                vstd::arithmetic::div_mod::lemma_div_is_ordered_by_denominator(
                    mag_a as int,
                    2,
                    mag_b as int,
                );
                assert(false);
            }
        }
        qm as i64
    }
}

/// Truncating remainder on the machine's words; see [`vm_rem`].
fn rem_i64(a: i64, b: i64) -> (r: i64)
    requires
        b != 0,
    ensures
        r == vm_rem(a, b),
{
    let mag_a: u64 = if a == i64::MIN {
        0x8000_0000_0000_0000u64
    } else if a < 0 {
        (-a) as u64
    } else {
        a as u64
    };
    let mag_b: u64 = if b == i64::MIN {
        0x8000_0000_0000_0000u64
    } else if b < 0 {
        (-b) as u64
    } else {
        b as u64
    };
    proof {
        assert(mag_a as int == abs(a as int));
        assert(mag_b as int == abs(b as int));
        vstd::arithmetic::div_mod::lemma_mod_bound(mag_a as int, mag_b as int);
    }
    let rm = mag_a % mag_b;
    if a < 0 {
        -(rm as i64)
    } else {
        rm as i64
    }
}

/// Parses one read line as a decimal integer that fits the machine's
/// words: an optional minus sign, then digits and nothing else.
fn parse_decimal(line: &Vec<u8>) -> (r: Option<i64>)
    ensures
        match r {
            Some(v) => dec_line_ok(line@) && -0x8000_0000_0000_0000 <= dec_line_value(line@)
                < 0x8000_0000_0000_0000 && v as int == dec_line_value(line@),
            None => !(dec_line_ok(line@) && -0x8000_0000_0000_0000 <= dec_line_value(line@)
                < 0x8000_0000_0000_0000),
        },
{
    if line.len() == 0 {
        return None;
    }
    let neg = line[0] == 45u8;
    let start: usize = if neg {
        1
    } else {
        0
    };
    if line.len() <= start {
        return None;
    }
    let ghost digs = if neg {
        line@.drop_first()
    } else {
        line@
    };
    proof {
        if neg {
            assert(forall|q: int| 0 <= q < digs.len() ==> digs[q] == line@[q + 1]);
        }
    }
    let mut m: u128 = 0;
    let mut j: usize = start;
    while j < line.len()
        invariant
            start <= j <= line@.len(),
            start == if neg {
                1usize
            } else {
                0usize
            },
            neg <==> (line@.len() >= 1 && line@[0] == 45),
            line@.len() >= start + 1,
            digs == if neg {
                line@.drop_first()
            } else {
                line@
            },
            forall|q: int| start <= q < j ==> is_digit(#[trigger] line@[q]),
            m as int == digits_value(line@.subrange(start as int, j as int)),
            m <= 0x8000_0000_0000_0000,
        decreases line@.len() - j,
    {
        let b = line[j];
        if b < 48 || b > 57 {
            return None;
        }
        proof {
            assert(line@.subrange(start as int, j + 1).drop_last() =~= line@.subrange(
                start as int,
                j as int,
            ));
            assert(line@.subrange(start as int, j + 1).last() == line@[j as int]);
        }
        let m2: u128 = m * 10 + ((b - 48) as u128);
        if m2 > 0x8000_0000_0000_0000 {
            proof {
                if dec_line_ok(line@) {
                    if neg {
                        assert(forall|q: int|
                            0 <= q < digs.len() ==> is_digit(#[trigger] digs[q]));
                    }
                    lemma_digits_value_monotone(digs, j + 1 - start as int);
                    assert(digs.take(j + 1 - start as int) =~= line@.subrange(
                        start as int,
                        j + 1,
                    ));
                }
            }
            return None;
        }
        m = m2;
        j += 1;
    }
    proof {
        assert(line@.subrange(start as int, line@.len() as int) =~= digs);
    }
    if neg {
        if m == 0x8000_0000_0000_0000 {
            Some(i64::MIN)
        } else {
            Some(-(m as i64))
        }
    } else {
        if m >= 0x8000_0000_0000_0000 {
            None
        } else {
            Some(m as i64)
        }
    }
}

/// Heap round trip: storing value v at address a and at once retrieving
/// from a leaves v on top of the stack, with heap address a now holding v.
pub proof fn lemma_heap_round_trip(s: VmState, rest: Seq<i64>, a: i64, v: i64)
    requires
        s.program.len() <= usize::MAX,
        s.status is Running,
        s.ip + 1 < s.program.len(),
        s.program[s.ip as int] == Instruction::StoreInHeap,
        s.program[s.ip as int + 1] == Instruction::RetreiveFomHeap,
        s.stack == rest.push(a).push(a).push(v),
    ensures
        spec_step(spec_step(s)).status == s.status,
        spec_step(spec_step(s)).stack == rest.push(v),
        spec_step(spec_step(s)).heap == s.heap.insert(a, v),
{
    let s1 = spec_step(s);
    assert(s.stack.take(s.stack.len() - 2) =~= rest.push(a));
    assert(s1.stack == rest.push(a));
    assert(s1.heap == s.heap.insert(a, v));
    let s2 = spec_step(s1);
    assert(s1.stack.take(s1.stack.len() - 1) =~= rest);
    assert(s1.heap[a] == v);
    assert(s2.stack == rest.push(v));
}

/// Retrieving from an address never stored yields zero on top of the
/// stack.
pub proof fn lemma_retrieve_unset(s: VmState, a: i64)
    requires
        s.status is Running,
        s.ip < s.program.len(),
        s.program[s.ip as int] == Instruction::RetreiveFomHeap,
        !s.heap.contains_key(a),
        s.stack.len() >= 1,
        s.stack.last() == a,
    ensures
        spec_step(s).status == s.status,
        spec_step(s).stack == s.stack.take(s.stack.len() - 1).push(0i64),
{
}

/// Forward label resolution: a jump to a label marked anywhere in the
/// program, later positions included, succeeds, because the label table
/// is built before execution begins.
pub proof fn lemma_forward_jump(s: VmState, j: int, l: Label)
    requires
        s.program.len() <= usize::MAX,
        s.labels == labels_of(s.program),
        !has_duplicate_label(s.program),
        s.status is Running,
        s.ip < s.program.len(),
        s.program[s.ip as int] == Instruction::Jmp(l),
        0 <= j < s.program.len(),
        s.program[j] == Instruction::MarkLocation(l),
    ensures
        spec_step(s).status == s.status,
        spec_step(s).ip == j,
{
    lemma_label_resolution(s.program, j, l);
}

/// A call or jump to a label never marked in the program halts the
/// machine with an unknown-label error, never anything worse.
pub proof fn lemma_unknown_label(s: VmState, l: Label)
    requires
        s.program.len() <= usize::MAX,
        s.labels == labels_of(s.program),
        s.status is Running,
        s.ip < s.program.len(),
        ({
            let insn = s.program[s.ip as int];
            insn == Instruction::CallSubroutine(l) || insn == Instruction::Jmp(l) || ((insn
                == Instruction::JmpTopZero(l) || insn == Instruction::JmpTopNegative(l))
                && s.stack.len() >= 1)
        }),
        forall|j: int| 0 <= j < s.program.len() ==> #[trigger] s.program[j]
            != Instruction::MarkLocation(l),
    ensures
        spec_step(s) == halt_err(s, RuntimeError::UnknownLabel),
{
    lemma_labels_of_props(s.program);
    if s.labels.contains_key(l) {
        let j = s.labels[l] as int;
        assert(s.program[j] == Instruction::MarkLocation(l));
        assert(false);
    }
}

/// Call and return are symmetric: a subroutine call pushes the address
/// just after the call site, and a later return with that address on top
/// of the call stack resumes execution exactly there, the address
/// consumed.
pub proof fn lemma_call_return_symmetry(s: VmState, l: Label, t: VmState)
    requires
        s.program.len() <= usize::MAX,
        s.status is Running,
        s.ip < s.program.len(),
        s.program[s.ip as int] == Instruction::CallSubroutine(l),
        s.labels.contains_key(l),
        t.status is Running,
        t.ip < t.program.len(),
        t.program == s.program,
        t.program[t.ip as int] == Instruction::Ret,
        t.call_stack == spec_step(s).call_stack,
    ensures
        spec_step(s).status == s.status,
        spec_step(s).ip == s.labels[l],
        spec_step(s).call_stack == s.call_stack.push((s.ip + 1) as usize),
        spec_step(t).status == t.status,
        spec_step(t).ip == s.ip + 1,
        spec_step(t).call_stack == s.call_stack,
{
    assert(t.call_stack.len() == s.call_stack.len() + 1);
    assert(t.call_stack[t.call_stack.len() - 1] == (s.ip + 1) as usize);
    assert(spec_step(t).call_stack =~= s.call_stack);
}

/// A bare return with no pending subroutine call halts the machine with a
/// call-stack underflow.
pub proof fn lemma_bare_return(s: VmState)
    requires
        s.status is Running,
        s.ip < s.program.len(),
        s.program[s.ip as int] == Instruction::Ret,
        s.call_stack.len() == 0,
    ensures
        spec_step(s) == halt_err(s, RuntimeError::CallStackUnderflow),
{
}

/// The interpreter: a loaded program with its label table, the machine
/// state, and the two byte buffers that stand for the input source and the
/// output sink.
pub struct Interpreter {
    ip: usize,
    program: Vec<Instruction>,
    labels: HashMap<Label, usize>,
    stack: Vec<i64>,
    call_stack: Vec<usize>,
    heap: HashMap<i64, i64>,
    input: Vec<u8>,
    in_pos: usize,
    output: Vec<u8>,
    status: Status,
}

impl View for Interpreter {
    type V = VmState;

    closed spec fn view(&self) -> VmState {
        VmState {
            ip: self.ip,
            program: self.program@,
            labels: self.labels@,
            stack: self.stack@,
            call_stack: self.call_stack@,
            heap: self.heap@,
            input: self.input@,
            in_pos: self.in_pos,
            output: self.output@,
            status: self.status,
        }
    }
}

impl Interpreter {
    /// Loads a program together with the bytes its reads will consume,
    /// building the label table; a label marked twice is rejected here,
    /// before any execution.
    pub fn new(program: Vec<Instruction>, input: Vec<u8>) -> (r: Result<Interpreter, LoadError>)
        ensures
            match r {
                Ok(vm) => !has_duplicate_label(program@) && vm@ == initial_state(
                    program@,
                    input@,
                ) && wf(vm@),
                Err(e) => e == LoadError::DuplicateLabel && has_duplicate_label(program@),
            },
    {
        let ghost p = program@;
        let mut labels: HashMap<Label, usize> = HashMap::new();
        let mut i: usize = 0;
        while i < program.len()
            invariant
                i <= p.len(),
                program@ == p,
                labels@ == labels_of(p.take(i as int)),
                !has_duplicate_label(p.take(i as int)),
            decreases p.len() - i,
        {
            let ghost pre = p.take(i as int);
            proof {
                assert(p.take(i + 1).drop_last() =~= pre);
                assert(p.take(i + 1).last() == p[i as int]);
            }
            match program[i] {
                Instruction::MarkLocation(l) => {
                    if labels.contains_key(&l) {
                        proof {
                            lemma_labels_of_props(pre);
                            let j0 = labels_of(pre)[l] as int;
                            assert(p[j0] == Instruction::MarkLocation(l));
                            assert(p[i as int] == Instruction::MarkLocation(l));
                            assert(is_mark(p[j0]) && is_mark(p[i as int]) && mark_of(p[j0])
                                == mark_of(p[i as int]));
                            assert(has_duplicate_label(p));
                        }
                        return Err(LoadError::DuplicateLabel);
                    }
                    proof {
                        lemma_labels_of_props(pre);
                        let nxt = p.take(i + 1);
                        assert forall|a: int, b: int|
                            0 <= a < b < nxt.len() && is_mark(#[trigger] nxt[a]) && is_mark(
                                #[trigger] nxt[b],
                            ) && mark_of(nxt[a]) == mark_of(nxt[b]) implies false by {
                            if b < i {
                                assert(pre[a] == nxt[a]);
                                assert(pre[b] == nxt[b]);
                            } else {
                                assert(b == i);
                                assert(pre[a] == nxt[a]);
                                assert(nxt[b] == p[i as int]);
                                assert(mark_of(nxt[a]) == l);
                                assert(pre[a] == Instruction::MarkLocation(l));
                                assert(labels_of(pre).contains_key(l));
                            }
                        }
                    }
                    labels.insert(l, i);
                },
                _ => {
                    proof {
                        let nxt = p.take(i + 1);
                        assert forall|a: int, b: int|
                            0 <= a < b < nxt.len() && is_mark(#[trigger] nxt[a]) && is_mark(
                                #[trigger] nxt[b],
                            ) && mark_of(nxt[a]) == mark_of(nxt[b]) implies false by {
                            if b < i {
                                assert(pre[a] == nxt[a]);
                                assert(pre[b] == nxt[b]);
                            } else {
                                assert(nxt[b] == p[i as int]);
                            }
                        }
                    }
                },
            }
            i = i + 1;
        }
        proof {
            assert(p.take(p.len() as int) =~= p);
            lemma_labels_of_props(p);
        }
        let vm = Interpreter {
            ip: 0,
            program,
            labels,
            stack: Vec::new(),
            call_stack: Vec::new(),
            heap: HashMap::new(),
            input,
            in_pos: 0,
            output: Vec::new(),
            status: Status::Running,
        };
        proof {
            assert(vm@ =~= initial_state(p, vm.input@));
        }
        Ok(vm)
    }

    /// Halts the machine with a runtime error, leaving its stores as they
    /// are.
    fn fail(&mut self, e: RuntimeError) -> (r: Result<(), RuntimeError>)
        ensures
            final(self)@ == halt_err(old(self)@, e),
            r == Err::<(), RuntimeError>(e),
    {
        self.status = Status::Failed(e);
        proof {
            assert(self@ =~= halt_err(old(self)@, e));
        }
        Err(e)
    }

    /// Executes exactly one instruction, atomically: the machine state
    /// after the call is `spec_step` of the state before it, and the
    /// result carries the runtime error if this step halted the machine
    /// with one. A step on an already halted machine is an explicit no-op
    /// that returns `Ok`.
    #[verifier::rlimit(100)]
    pub fn step(&mut self) -> (r: Result<(), RuntimeError>)
        requires
            wf(old(self)@),
        ensures
            final(self)@ == spec_step(old(self)@),
            wf(final(self)@),
            r is Err <==> (old(self)@.status is Running && spec_step(old(self)@).status
                is Failed),
            r matches Err(e) ==> spec_step(old(self)@).status == Status::Failed(e),
    {
        match self.status {
            Status::Running => {},
            _ => {
                return Ok(());
            },
        }
        if self.ip >= self.program.len() {
            return self.fail(RuntimeError::ProgramOverrun);
        }
        let insn = self.program[self.ip];
        match insn {
            Instruction::PushNrOnStack(n) => {
                self.stack.push(n);
                self.ip = self.ip + 1;
                proof {
                    assert(self@ =~= spec_step(old(self)@));
                }
                Ok(())
            },
            Instruction::DuplicateTopStack => {
                let l = self.stack.len();
                if l < 1 {
                    return self.fail(RuntimeError::StackUnderflow);
                }
                let v = self.stack[l - 1];
                self.stack.push(v);
                self.ip = self.ip + 1;
                proof {
                    assert(self@ =~= spec_step(old(self)@));
                }
                Ok(())
            },
            Instruction::CopyNthOnTop(n) => {
                let l = self.stack.len();
                if n < 0 || n as u64 >= l as u64 {
                    return self.fail(RuntimeError::StackUnderflow);
                }
                let v = self.stack[l - 1 - (n as usize)];
                self.stack.push(v);
                self.ip = self.ip + 1;
                proof {
                    assert(self@ =~= spec_step(old(self)@));
                }
                Ok(())
            },
            Instruction::SwapTopTwoOnStack => {
                let l = self.stack.len();
                if l < 2 {
                    return self.fail(RuntimeError::StackUnderflow);
                }
                let x = self.stack.pop().unwrap();
                let y = self.stack.pop().unwrap();
                self.stack.push(x);
                self.stack.push(y);
                self.ip = self.ip + 1;
                proof {
                    assert(old(self)@.stack.take(l - 1).subrange(0, l - 2) =~= old(
                        self,
                    )@.stack.take(l - 2));
                    assert(self@ =~= spec_step(old(self)@));
                }
                Ok(())
            },
            Instruction::DiscardTopOfStack => {
                let l = self.stack.len();
                if l < 1 {
                    return self.fail(RuntimeError::StackUnderflow);
                }
                let _ = self.stack.pop();
                self.ip = self.ip + 1;
                proof {
                    assert(self@ =~= spec_step(old(self)@));
                }
                Ok(())
            },
            Instruction::SlideNOfTopOfStackKeepTopItem(n) => {
                let l = self.stack.len();
                if n < 0 || (n as u64) + 1 > l as u64 {
                    return self.fail(RuntimeError::StackUnderflow);
                }
                let top = self.stack.pop().unwrap();
                let k = n as usize;
                let mut c: usize = 0;
                while c < k
                    invariant
                        c <= k,
                        k < l,
                        l == old(self)@.stack.len(),
                        self.stack@ == old(self)@.stack.take(l - 1 - c),
                        self.ip == old(self)@.ip,
                        self.program@ == old(self)@.program,
                        self.labels@ == old(self)@.labels,
                        self.call_stack@ == old(self)@.call_stack,
                        self.heap@ == old(self)@.heap,
                        self.input@ == old(self)@.input,
                        self.in_pos == old(self)@.in_pos,
                        self.output@ == old(self)@.output,
                        self.status == old(self)@.status,
                    decreases k - c,
                {
                    proof {
                        assert(old(self)@.stack.take(l - 1 - c).subrange(0, l - 1 - c - 1)
                            =~= old(self)@.stack.take(l - 1 - (c + 1)));
                    }
                    let _ = self.stack.pop();
                    c += 1;
                }
                self.stack.push(top);
                self.ip = self.ip + 1;
                proof {
                    assert(self@ =~= spec_step(old(self)@));
                }
                Ok(())
            },
            Instruction::Addition => {
                let l = self.stack.len();
                if l < 2 {
                    return self.fail(RuntimeError::StackUnderflow);
                }
                let b = self.stack.pop().unwrap();
                let a = self.stack.pop().unwrap();
                let v = a.wrapping_add(b);
                self.stack.push(v);
                self.ip = self.ip + 1;
                proof {
                    lemma_wrap_i64_near(a as int + b as int);
                    assert(v == wrap_i64(a as int + b as int));
                    assert(old(self)@.stack.take(l - 1).subrange(0, l - 2) =~= old(
                        self,
                    )@.stack.take(l - 2));
                    assert(self@ =~= spec_step(old(self)@));
                }
                Ok(())
            },
            Instruction::Substraction => {
                let l = self.stack.len();
                if l < 2 {
                    return self.fail(RuntimeError::StackUnderflow);
                }
                let b = self.stack.pop().unwrap();
                let a = self.stack.pop().unwrap();
                let v = a.wrapping_sub(b);
                self.stack.push(v);
                self.ip = self.ip + 1;
                proof {
                    lemma_wrap_i64_near(a as int - b as int);
                    assert(v == wrap_i64(a as int - b as int));
                    assert(old(self)@.stack.take(l - 1).subrange(0, l - 2) =~= old(
                        self,
                    )@.stack.take(l - 2));
                    assert(self@ =~= spec_step(old(self)@));
                }
                Ok(())
            },
            Instruction::Multiplication => {
                let l = self.stack.len();
                if l < 2 {
                    return self.fail(RuntimeError::StackUnderflow);
                }
                let b = self.stack.pop().unwrap();
                let a = self.stack.pop().unwrap();
                let v = a.wrapping_mul(b);
                self.stack.push(v);
                self.ip = self.ip + 1;
                proof {
                    assert(v == wrap_i64(a as int * b as int));
                    assert(old(self)@.stack.take(l - 1).subrange(0, l - 2) =~= old(
                        self,
                    )@.stack.take(l - 2));
                    assert(self@ =~= spec_step(old(self)@));
                }
                Ok(())
            },
            Instruction::IntegerDivision => {
                let l = self.stack.len();
                if l < 2 {
                    return self.fail(RuntimeError::StackUnderflow);
                }
                if self.stack[l - 1] == 0 {
                    return self.fail(RuntimeError::DivisionByZero);
                }
                let b = self.stack.pop().unwrap();
                let a = self.stack.pop().unwrap();
                let v = div_i64(a, b);
                self.stack.push(v);
                self.ip = self.ip + 1;
                proof {
                    assert(old(self)@.stack.take(l - 1).subrange(0, l - 2) =~= old(
                        self,
                    )@.stack.take(l - 2));
                    assert(self@ =~= spec_step(old(self)@));
                }
                Ok(())
            },
            Instruction::Modulo => {
                let l = self.stack.len();
                if l < 2 {
                    return self.fail(RuntimeError::StackUnderflow);
                }
                if self.stack[l - 1] == 0 {
                    return self.fail(RuntimeError::DivisionByZero);
                }
                let b = self.stack.pop().unwrap();
                let a = self.stack.pop().unwrap();
                let v = rem_i64(a, b);
                self.stack.push(v);
                self.ip = self.ip + 1;
                proof {
                    assert(old(self)@.stack.take(l - 1).subrange(0, l - 2) =~= old(
                        self,
                    )@.stack.take(l - 2));
                    assert(self@ =~= spec_step(old(self)@));
                }
                Ok(())
            },
            Instruction::StoreInHeap => {
                let l = self.stack.len();
                if l < 2 {
                    return self.fail(RuntimeError::StackUnderflow);
                }
                let value = self.stack.pop().unwrap();
                let addr = self.stack.pop().unwrap();
                self.heap.insert(addr, value);
                self.ip = self.ip + 1;
                proof {
                    assert(old(self)@.stack.take(l - 1).subrange(0, l - 2) =~= old(
                        self,
                    )@.stack.take(l - 2));
                    assert(self@ =~= spec_step(old(self)@));
                }
                Ok(())
            },
            Instruction::RetreiveFomHeap => {
                let l = self.stack.len();
                if l < 1 {
                    return self.fail(RuntimeError::StackUnderflow);
                }
                let addr = self.stack.pop().unwrap();
                let v = match self.heap.get(&addr) {
                    Some(value) => *value,
                    None => 0,
                };
                self.stack.push(v);
                self.ip = self.ip + 1;
                proof {
                    assert(self@ =~= spec_step(old(self)@));
                }
                Ok(())
            },
            Instruction::MarkLocation(_) => {
                self.ip = self.ip + 1;
                proof {
                    assert(self@ =~= spec_step(old(self)@));
                }
                Ok(())
            },
            Instruction::CallSubroutine(lb) => {
                if !self.labels.contains_key(&lb) {
                    return self.fail(RuntimeError::UnknownLabel);
                }
                self.call_stack.push(self.ip + 1);
                self.ip = *self.labels.get(&lb).unwrap();
                proof {
                    assert(self@ =~= spec_step(old(self)@));
                }
                Ok(())
            },
            Instruction::Jmp(lb) => {
                if !self.labels.contains_key(&lb) {
                    return self.fail(RuntimeError::UnknownLabel);
                }
                self.ip = *self.labels.get(&lb).unwrap();
                proof {
                    assert(self@ =~= spec_step(old(self)@));
                }
                Ok(())
            },
            Instruction::JmpTopZero(lb) => {
                let l = self.stack.len();
                if l < 1 {
                    return self.fail(RuntimeError::StackUnderflow);
                }
                if !self.labels.contains_key(&lb) {
                    return self.fail(RuntimeError::UnknownLabel);
                }
                let v = self.stack.pop().unwrap();
                if v == 0 {
                    self.ip = *self.labels.get(&lb).unwrap();
                } else {
                    self.ip = self.ip + 1;
                }
                proof {
                    assert(self@ =~= spec_step(old(self)@));
                }
                Ok(())
            },
            Instruction::JmpTopNegative(lb) => {
                let l = self.stack.len();
                if l < 1 {
                    return self.fail(RuntimeError::StackUnderflow);
                }
                if !self.labels.contains_key(&lb) {
                    return self.fail(RuntimeError::UnknownLabel);
                }
                let v = self.stack.pop().unwrap();
                if v < 0 {
                    self.ip = *self.labels.get(&lb).unwrap();
                } else {
                    self.ip = self.ip + 1;
                }
                proof {
                    assert(self@ =~= spec_step(old(self)@));
                }
                Ok(())
            },
            Instruction::Ret => {
                if self.call_stack.len() < 1 {
                    return self.fail(RuntimeError::CallStackUnderflow);
                }
                let addr = self.call_stack.pop().unwrap();
                self.ip = addr;
                proof {
                    assert(self@ =~= spec_step(old(self)@));
                }
                Ok(())
            },
            Instruction::End => {
                self.status = Status::Done;
                proof {
                    assert(self@ =~= spec_step(old(self)@));
                }
                Ok(())
            },
            Instruction::OutputChar => {
                let l = self.stack.len();
                if l < 1 {
                    return self.fail(RuntimeError::StackUnderflow);
                }
                let v = self.stack[l - 1];
                if v < 0 || v > 255 {
                    return self.fail(RuntimeError::InvalidCharacterCode);
                }
                let _ = self.stack.pop();
                self.output.push(v as u8);
                self.ip = self.ip + 1;
                proof {
                    assert(self@ =~= spec_step(old(self)@));
                }
                Ok(())
            },
            Instruction::OutputNum => {
                let l = self.stack.len();
                if l < 1 {
                    return self.fail(RuntimeError::StackUnderflow);
                }
                let v = self.stack.pop().unwrap();
                if v < 0 {
                    self.output.push(45u8);
                    let mag: u64 = if v == i64::MIN {
                        0x8000_0000_0000_0000u64
                    } else {
                        (-v) as u64
                    };
                    push_digits(mag, &mut self.output);
                    proof {
                        assert(old(self)@.output.push(45u8) + dec_digits(mag as nat) =~= old(
                            self,
                        )@.output + dec_repr(v));
                    }
                } else {
                    push_digits(v as u64, &mut self.output);
                }
                self.ip = self.ip + 1;
                proof {
                    assert(self@ =~= spec_step(old(self)@));
                }
                Ok(())
            },
            Instruction::ReadChar => {
                if self.in_pos >= self.input.len() {
                    return self.fail(RuntimeError::EndOfInput);
                }
                let c = self.input[self.in_pos];
                self.stack.push(c as i64);
                self.in_pos = self.in_pos + 1;
                self.ip = self.ip + 1;
                proof {
                    assert(self@ =~= spec_step(old(self)@));
                }
                Ok(())
            },
            Instruction::ReadNum => {
                if self.in_pos >= self.input.len() {
                    return self.fail(RuntimeError::EndOfInput);
                }
                let start = self.in_pos;
                let mut e: usize = start;
                while e < self.input.len() && self.input[e] != 10u8
                    invariant
                        start <= e <= self.input@.len(),
                        forall|q: int| start <= q < e ==> self.input@[q] != 10,
                    decreases self.input@.len() - e,
                {
                    e += 1;
                }
                proof {
                    let sk = self.input@.skip(start as int);
                    assert(forall|j: int|
                        0 <= j < sk.len() ==> sk[j] == self.input@[j + start]);
                    if e < self.input@.len() {
                        lemma_nl_pos_at(sk, e - start);
                    } else {
                        lemma_nl_pos_bounds(sk);
                        assert(nl_pos(sk) == sk.len());
                    }
                }
                let mut line: Vec<u8> = Vec::new();
                let mut j: usize = start;
                while j < e
                    invariant
                        start <= j <= e,
                        e <= self.input@.len(),
                        line@ == self.input@.subrange(start as int, j as int),
                    decreases e - j,
                {
                    let b = self.input[j];
                    line.push(b);
                    proof {
                        assert(self.input@.subrange(start as int, j + 1) =~= self.input@.subrange(
                            start as int,
                            j as int,
                        ).push(b));
                    }
                    j += 1;
                }
                match parse_decimal(&line) {
                    Some(v) => {
                        self.stack.push(v);
                        self.in_pos = if e < self.input.len() {
                            e + 1
                        } else {
                            e
                        };
                        self.ip = self.ip + 1;
                        proof {
                            assert(self@ =~= spec_step(old(self)@));
                        }
                        Ok(())
                    },
                    None => self.fail(RuntimeError::EndOfInput),
                }
            },
        }
    }

    /// Whether the machine will make no further progress: it ended normally
    /// or a runtime error halted it.
    pub fn is_halted(&self) -> (h: bool)
        ensures
            h == !(self@.status is Running),
    {
        !matches!(self.status, Status::Running)
    }

    /// The terminal error, if a runtime error halted the machine.
    pub fn error(&self) -> (e: Option<RuntimeError>)
        ensures
            match self@.status {
                Status::Failed(err) => e == Some(err),
                _ => e is None,
            },
    {
        match self.status {
            Status::Failed(err) => Some(err),
            _ => None,
        }
    }

    /// The data stack, bottom first.
    pub fn stack(&self) -> (s: &Vec<i64>)
        ensures
            s@ == self@.stack,
    {
        &self.stack
    }

    /// Every byte the program has written so far.
    pub fn output(&self) -> (o: &Vec<u8>)
        ensures
            o@ == self@.output,
    {
        &self.output
    }
}

} // verus!
