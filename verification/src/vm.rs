//! The interpreter.
//!
//! The machine has a stack of at most 1024 values and 256 global slots, all
//! zero at the start. It runs from the first byte, one instruction after
//! another, until `HALT` or a trap. A trap names the position of the
//! instruction that caused it; running past the last instruction is the
//! trap "missing HALT". Where an `i64` result does not exist (overflow, or
//! `i64::MIN` divided by -1), the machine stops without a trap and reports
//! the message of Rust's panic for that operation.

use vstd::prelude::*;
use crate::bytecode::{read_bytecode, read_container};
use crate::isa::{decode_error_text, encode_all, encoding, lemma_decode_advances, lemma_decode_encoding, lemma_encode_all_push, op_text, spec_decode, DecodeError, Op};
use crate::numeral::{dec_digits, dec_int, is_digit, lemma_dec_digits, lemma_parse_dec_i64, parse_i64_value, hex4, push_hex4, push_signed, push_unsigned};

verus! {

/// The most values the stack holds.
pub const STACK_LIMIT: usize = 1024;

/// The number of global slots.
pub const GLOBAL_SLOTS: usize = 256;

/// Why the machine traps.
#[derive(Debug, Clone, Copy, PartialEq, Eq, Structural)]
pub enum Fault {
    StackUnderflow,
    StackOverflow,
    DivideByZero,
    ModuloByZero,
    Decode(DecodeError),
    MissingHalt,
}

/// An operation whose `i64` result does not exist.
#[derive(Debug, Clone, Copy, PartialEq, Eq, Structural)]
pub enum Arith {
    Add,
    Sub,
    Mul,
    Div,
    Rem,
    Neg,
}

/// What one instruction does to the machine.
pub enum Effect {
    /// Go on with this stack and these globals, having printed a value or not.
    Continue(Seq<i64>, Seq<i64>, Option<i64>),
    Halt,
    Trap(Fault),
    Overflow(Arith),
}

/// What the machine reports while it runs.
pub enum Event {
    /// About to execute the instruction at this position, with this stack.
    Trace(int, Op, Seq<i64>),
    /// `PRINT` of this value.
    Print(i64),
}

/// How a run ends.
pub enum Stop {
    Halted,
    Trapped(int, Fault),
    Overflowed(int, Arith),
}

/// One instruction on a stack (top last) and the globals.
pub open spec fn step(op: Op, stack: Seq<i64>, globals: Seq<i64>) -> Effect {
    let n = stack.len();
    match op {
        Op::Push(v) => if n >= STACK_LIMIT {
            Effect::Trap(Fault::StackOverflow)
        } else {
            Effect::Continue(stack.push(v), globals, None)
        },
        Op::Pop => if n == 0 {
            Effect::Trap(Fault::StackUnderflow)
        } else {
            Effect::Continue(stack.drop_last(), globals, None)
        },
        Op::Dup => if n == 0 {
            Effect::Trap(Fault::StackUnderflow)
        } else if n >= STACK_LIMIT {
            Effect::Trap(Fault::StackOverflow)
        } else {
            Effect::Continue(stack.push(stack.last()), globals, None)
        },
        Op::Swap => if n < 2 {
            Effect::Trap(Fault::StackUnderflow)
        } else {
            Effect::Continue(
                stack.update(n - 1, stack[n - 2]).update(n - 2, stack[n - 1]),
                globals,
                None,
            )
        },
        Op::Add | Op::Sub | Op::Mul | Op::Div | Op::Mod => if n < 2 {
            Effect::Trap(Fault::StackUnderflow)
        } else {
            let a = stack[n - 2];
            let b = stack[n - 1];
            let rest = stack.take(n - 2);
            if op is Div && b == 0 {
                Effect::Trap(Fault::DivideByZero)
            } else if op is Mod && b == 0 {
                Effect::Trap(Fault::ModuloByZero)
            } else {
                let (r, kind) = match op {
                    Op::Add => (a.checked_add(b), Arith::Add),
                    Op::Sub => (a.checked_sub(b), Arith::Sub),
                    Op::Mul => (a.checked_mul(b), Arith::Mul),
                    Op::Div => (a.checked_div(b), Arith::Div),
                    _ => (a.checked_rem(b), Arith::Rem),
                };
                match r {
                    Some(v) => Effect::Continue(rest.push(v), globals, None),
                    None => Effect::Overflow(kind),
                }
            }
        },
        Op::Neg => if n == 0 {
            Effect::Trap(Fault::StackUnderflow)
        } else if stack.last() == i64::MIN {
            Effect::Overflow(Arith::Neg)
        } else {
            Effect::Continue(stack.update(n - 1, (-stack.last()) as i64), globals, None)
        },
        Op::Load(i) => if n >= STACK_LIMIT {
            Effect::Trap(Fault::StackOverflow)
        } else {
            Effect::Continue(stack.push(globals[i as int]), globals, None)
        },
        Op::Store(i) => if n == 0 {
            Effect::Trap(Fault::StackUnderflow)
        } else {
            Effect::Continue(stack.drop_last(), globals.update(i as int, stack.last()), None)
        },
        Op::Print => if n == 0 {
            Effect::Trap(Fault::StackUnderflow)
        } else {
            Effect::Continue(stack.drop_last(), globals, Some(stack.last()))
        },
        Op::Halt => Effect::Halt,
    }
}

/// Running `code` from `ip`: what it reports, and how it ends.
pub open spec fn execute(code: Seq<u8>, ip: int, stack: Seq<i64>, globals: Seq<i64>) -> (
    Seq<Event>,
    Stop,
)
    decreases code.len() - ip,
{
    if ip < 0 || ip >= code.len() {
        (seq![], Stop::Trapped(ip, Fault::MissingHalt))
    } else {
        match spec_decode(code, ip) {
            Err(e) => (seq![], Stop::Trapped(ip, Fault::Decode(e))),
            Ok((op, next)) => {
                let trace = Event::Trace(ip, op, stack);
                match step(op, stack, globals) {
                    Effect::Continue(s, g, printed) => {
                        proof {
                            lemma_decode_advances(code, ip);
                        }
                        let (rest, stop) = execute(code, next, s, g);
                        let shown = match printed {
                            Some(v) => seq![Event::Print(v)],
                            None => seq![],
                        };
                        (seq![trace] + shown + rest, stop)
                    },
                    Effect::Halt => (seq![trace], Stop::Halted),
                    Effect::Trap(f) => (seq![trace], Stop::Trapped(ip, f)),
                    Effect::Overflow(a) => (seq![trace], Stop::Overflowed(ip, a)),
                }
            },
        }
    }
}

pub open spec fn initial_globals() -> Seq<i64> {
    Seq::new(GLOBAL_SLOTS as nat, |i: int| 0i64)
}

/// Running `code` from the start on an empty stack and zero globals.
pub open spec fn run_spec(code: Seq<u8>) -> (Seq<Event>, Stop) {
    execute(code, 0, seq![], initial_globals())
}

/// The values of a stack as Rust's `Debug` writes a `Vec<i64>`.
pub open spec fn join_values(s: Seq<i64>) -> Seq<char>
    decreases s.len(),
{
    if s.len() == 0 {
        seq![]
    } else if s.len() == 1 {
        dec_int(s[0] as int)
    } else {
        join_values(s.drop_last()) + ", "@ + dec_int(s.last() as int)
    }
}

pub open spec fn stack_text(s: Seq<i64>) -> Seq<char> {
    "["@ + join_values(s) + "]"@
}

/// The line that trace mode prints before an instruction.
pub open spec fn trace_text(ip: int, op: Op, stack: Seq<i64>) -> Seq<char> {
    "ip="@ + dec_digits(ip as nat) + " "@ + op_text(op) + " stack="@ + stack_text(stack)
}

/// The lines printed for a sequence of events: the printed values, and, in
/// trace mode, the trace lines.
pub open spec fn output_lines(events: Seq<Event>, trace: bool) -> Seq<Seq<char>>
    decreases events.len(),
{
    if events.len() == 0 {
        seq![]
    } else {
        let rest = output_lines(events.drop_first(), trace);
        match events[0] {
            Event::Trace(ip, op, stack) => if trace {
                seq![trace_text(ip, op, stack)] + rest
            } else {
                rest
            },
            Event::Print(v) => seq![dec_int(v as int)] + rest,
        }
    }
}

pub open spec fn fault_text(f: Fault) -> Seq<char> {
    match f {
        Fault::StackUnderflow => "stack underflow"@,
        Fault::StackOverflow => "stack overflow"@,
        Fault::DivideByZero => "divide by zero"@,
        Fault::ModuloByZero => "modulo by zero"@,
        Fault::Decode(e) => decode_error_text(e),
        Fault::MissingHalt => "missing HALT"@,
    }
}

/// The report of a trap: where and why.
pub open spec fn trap_text(ip: int, f: Fault) -> Seq<char> {
    "trap at ip=0x"@ + hex4(ip as nat) + ": "@ + fault_text(f)
}

/// The message of Rust's panic on the overflowing operation.
pub open spec fn overflow_text(a: Arith) -> Seq<char> {
    match a {
        Arith::Add => "attempt to add with overflow"@,
        Arith::Sub => "attempt to subtract with overflow"@,
        Arith::Mul => "attempt to multiply with overflow"@,
        Arith::Div => "attempt to divide with overflow"@,
        Arith::Rem => "attempt to calculate the remainder with overflow"@,
        Arith::Neg => "attempt to negate with overflow"@,
    }
}

/// How a run ended, as the caller sees it.
pub enum Outcome {
    Halted,
    /// A trap, with its report.
    Trapped(String),
    /// An `i64` overflow, with the message of Rust's panic for it.
    Overflowed(String),
}

/// What a run printed, line by line, and how it ended.
pub struct Execution {
    pub output: Vec<String>,
    pub outcome: Outcome,
}

pub open spec fn strings_view(v: Seq<String>) -> Seq<Seq<char>> {
    v.map_values(|s: String| s@)
}

pub open spec fn outcome_is(o: Outcome, stop: Stop) -> bool {
    match stop {
        Stop::Halted => o is Halted,
        Stop::Trapped(ip, f) => o is Trapped && o->Trapped_0@ == trap_text(ip, f),
        Stop::Overflowed(_, a) => o is Overflowed && o->Overflowed_0@ == overflow_text(a),
    }
}

/// `e` is what running `code` gives, printing trace lines or not.
pub open spec fn execution_of(e: Execution, code: Seq<u8>, trace: bool) -> bool {
    let (events, stop) = run_spec(code);
    &&& strings_view(e.output@) == output_lines(events, trace)
    &&& outcome_is(e.outcome, stop)
}

/// What one instruction did, as the interpreter loop sees it.
enum Done {
    Continue(Option<i64>),
    Halt,
    Trap(Fault),
    Overflow(Arith),
}

/// Executes `op` on the machine state.
fn apply(op: Op, stack: &mut Vec<i64>, globals: &mut Vec<i64>) -> (d: Done)
    requires
        old(globals).len() == GLOBAL_SLOTS,
    ensures
        final(globals).len() == GLOBAL_SLOTS,
        match step(op, old(stack)@, old(globals)@) {
            Effect::Continue(s, g, p) => d == Done::Continue(p) && final(stack)@ == s
                && final(globals)@ == g,
            Effect::Halt => d is Halt,
            Effect::Trap(f) => d == Done::Trap(f),
            Effect::Overflow(a) => d == Done::Overflow(a),
        },
{
    let n = stack.len();
    match op {
        Op::Push(v) => {
            if n >= STACK_LIMIT {
                return Done::Trap(Fault::StackOverflow);
            }
            stack.push(v);
            Done::Continue(None)
        },
        Op::Pop => {
            if n == 0 {
                return Done::Trap(Fault::StackUnderflow);
            }
            stack.pop();
            Done::Continue(None)
        },
        Op::Dup => {
            if n == 0 {
                return Done::Trap(Fault::StackUnderflow);
            }
            if n >= STACK_LIMIT {
                return Done::Trap(Fault::StackOverflow);
            }
            let v = stack[n - 1];
            stack.push(v);
            Done::Continue(None)
        },
        Op::Swap => {
            if n < 2 {
                return Done::Trap(Fault::StackUnderflow);
            }
            let top = stack[n - 1];
            let below = stack[n - 2];
            stack.set(n - 1, below);
            stack.set(n - 2, top);
            Done::Continue(None)
        },
        Op::Add | Op::Sub | Op::Mul | Op::Div | Op::Mod => {
            if n < 2 {
                return Done::Trap(Fault::StackUnderflow);
            }
            let b = stack.pop().unwrap();
            let a = stack.pop().unwrap();
            proof {
                assert(stack@ =~= old(stack)@.take(n - 2));
            }
            if b == 0 {
                match op {
                    Op::Div => {
                        return Done::Trap(Fault::DivideByZero);
                    },
                    Op::Mod => {
                        return Done::Trap(Fault::ModuloByZero);
                    },
                    _ => {},
                }
            }
            let (r, kind) = match op {
                Op::Add => (a.checked_add(b), Arith::Add),
                Op::Sub => (a.checked_sub(b), Arith::Sub),
                Op::Mul => (a.checked_mul(b), Arith::Mul),
                Op::Div => (a.checked_div(b), Arith::Div),
                _ => (a.checked_rem(b), Arith::Rem),
            };
            match r {
                Some(v) => {
                    stack.push(v);
                    Done::Continue(None)
                },
                None => Done::Overflow(kind),
            }
        },
        Op::Neg => {
            if n == 0 {
                return Done::Trap(Fault::StackUnderflow);
            }
            let v = stack[n - 1];
            if v == i64::MIN {
                return Done::Overflow(Arith::Neg);
            }
            stack.set(n - 1, -v);
            Done::Continue(None)
        },
        Op::Load(i) => {
            if n >= STACK_LIMIT {
                return Done::Trap(Fault::StackOverflow);
            }
            let v = globals[i as usize];
            stack.push(v);
            Done::Continue(None)
        },
        Op::Store(i) => {
            if n == 0 {
                return Done::Trap(Fault::StackUnderflow);
            }
            let v = stack.pop().unwrap();
            globals.set(i as usize, v);
            Done::Continue(None)
        },
        Op::Print => {
            if n == 0 {
                return Done::Trap(Fault::StackUnderflow);
            }
            let v = stack.pop().unwrap();
            Done::Continue(Some(v))
        },
        Op::Halt => Done::Halt,
    }
}

fn fault_message(f: Fault) -> (s: String)
    ensures
        s@ == fault_text(f),
{
    match f {
        Fault::StackUnderflow => String::from_str("stack underflow"),
        Fault::StackOverflow => String::from_str("stack overflow"),
        Fault::DivideByZero => String::from_str("divide by zero"),
        Fault::ModuloByZero => String::from_str("modulo by zero"),
        Fault::Decode(e) => e.message(),
        Fault::MissingHalt => String::from_str("missing HALT"),
    }
}

/// The report of a trap at `ip`.
pub fn trap_message(ip: usize, f: Fault) -> (s: String)
    ensures
        s@ == trap_text(ip as int, f),
{
    let mut s = String::from_str("trap at ip=0x");
    push_hex4(&mut s, ip as u64);
    s.append(": ");
    let m = fault_message(f);
    s.append(m.as_str());
    s
}

/// The message of Rust's panic on an overflowing operation.
pub fn overflow_message(a: Arith) -> (s: String)
    ensures
        s@ == overflow_text(a),
{
    match a {
        Arith::Add => String::from_str("attempt to add with overflow"),
        Arith::Sub => String::from_str("attempt to subtract with overflow"),
        Arith::Mul => String::from_str("attempt to multiply with overflow"),
        Arith::Div => String::from_str("attempt to divide with overflow"),
        Arith::Rem => String::from_str("attempt to calculate the remainder with overflow"),
        Arith::Neg => String::from_str("attempt to negate with overflow"),
    }
}

/// The stack as Rust's `Debug` writes a `Vec<i64>`.
pub fn format_stack(stack: &Vec<i64>) -> (s: String)
    ensures
        s@ == stack_text(stack@),
{
    let mut s = String::from_str("[");
    let ghost start = s@;
    let mut i: usize = 0;
    while i < stack.len()
        invariant
            i <= stack.len(),
            s@ == start + join_values(stack@.take(i as int)),
        decreases stack.len() - i,
    {
        if i > 0 {
            s.append(", ");
        }
        push_signed(&mut s, stack[i]);
        proof {
            let t = stack@.take(i + 1);
            assert(t.drop_last() =~= stack@.take(i as int));
            assert(t.last() == stack@[i as int]);
            if i == 0 {
                assert(join_values(stack@.take(0)) == Seq::<char>::empty());
                assert(s@ =~= start + join_values(t));
            } else {
                assert(s@ =~= start + join_values(t));
            }
        }
        i = i + 1;
    }
    s.append("]");
    proof {
        assert(stack@.take(i as int) =~= stack@);
    }
    s
}

/// The line that trace mode prints before the instruction at `ip`.
pub fn format_trace(ip: usize, op: Op, stack: &Vec<i64>) -> (s: String)
    ensures
        s@ == trace_text(ip as int, op, stack@),
{
    let mut s = String::from_str("ip=");
    push_unsigned(&mut s, ip as u64);
    s.append(" ");
    let o = op.format_op();
    s.append(o.as_str());
    s.append(" stack=");
    let st = format_stack(stack);
    s.append(st.as_str());
    s
}

/// The lines printed for one event.
pub open spec fn event_lines(e: Event, trace: bool) -> Seq<Seq<char>> {
    output_lines(seq![e], trace)
}

pub proof fn lemma_output_lines_push(events: Seq<Event>, e: Event, trace: bool)
    ensures
        output_lines(events.push(e), trace) == output_lines(events, trace) + event_lines(e, trace),
    decreases events.len(),
{
    let one = seq![e];
    assert(one.drop_first() =~= Seq::<Event>::empty());
    assert(output_lines(Seq::<Event>::empty(), trace) == Seq::<Seq<char>>::empty());
    if events.len() == 0 {
        assert(events.push(e) =~= one);
        assert(output_lines(events, trace) == Seq::<Seq<char>>::empty());
        assert(output_lines(events.push(e), trace) =~= output_lines(events, trace) + event_lines(e, trace));
    } else {
        lemma_output_lines_push(events.drop_first(), e, trace);
        assert(events.push(e).drop_first() =~= events.drop_first().push(e));
        assert(events.push(e)[0] == events[0]);
        assert(output_lines(events.push(e), trace) =~= output_lines(events, trace) + event_lines(e, trace));
    }
}

fn run_internal(code: &[u8], trace: bool) -> (e: Execution)
    ensures
        execution_of(e, code@, trace),
{
    let mut stack: Vec<i64> = Vec::new();
    let mut globals: Vec<i64> = Vec::new();
    while globals.len() < GLOBAL_SLOTS
        invariant
            globals.len() <= GLOBAL_SLOTS,
            forall|k: int| 0 <= k < globals.len() ==> globals@[k] == 0,
        decreases GLOBAL_SLOTS - globals.len(),
    {
        globals.push(0);
    }
    proof {
        assert(globals@ =~= initial_globals());
    }
    let mut ip: usize = 0;
    let mut output: Vec<String> = Vec::new();
    let ghost done: Seq<Event> = seq![];
    proof {
        let r = execute(code@, 0, stack@, globals@);
        assert(done + r.0 =~= r.0);
        assert(strings_view(output@) =~= Seq::<Seq<char>>::empty());
    }
    loop
        invariant
            ip <= code.len(),
            globals.len() == GLOBAL_SLOTS,
            run_spec(code@) == (
                done + execute(code@, ip as int, stack@, globals@).0,
                execute(code@, ip as int, stack@, globals@).1,
            ),
            strings_view(output@) == output_lines(done, trace),
        decreases code.len() - ip,
    {
        let ghost r = execute(code@, ip as int, stack@, globals@);
        if ip >= code.len() {
            proof {
                assert(done + r.0 =~= done);
            }
            return Execution { output, outcome: Outcome::Trapped(trap_message(ip, Fault::MissingHalt)) };
        }
        proof {
            lemma_decode_advances(code@, ip as int);
        }
        match Op::decode_op(code, ip) {
            Err(e) => {
                proof {
                    assert(done + r.0 =~= done);
                }
                return Execution {
                    output,
                    outcome: Outcome::Trapped(trap_message(ip, Fault::Decode(e))),
                };
            },
            Ok((op, next)) => {
                let ghost stack0 = stack@;
                let ghost ev = Event::Trace(ip as int, op, stack0);
                if trace {
                    let line = format_trace(ip, op, &stack);
                    output.push(line);
                }
                proof {
                    lemma_output_lines_push(done, ev, trace);
                    assert(output_lines(seq![ev].drop_first(), trace) == Seq::<Seq<char>>::empty()) by {
                        assert(seq![ev].drop_first() =~= Seq::<Event>::empty());
                    }
                    assert(strings_view(output@) =~= output_lines(done.push(ev), trace));
                }
                let d = apply(op, &mut stack, &mut globals);
                match d {
                    Done::Continue(printed) => {
                        let ghost mid = done.push(ev);
                        match printed {
                            Some(v) => {
                                let mut line = String::new();
                                push_signed(&mut line, v);
                                output.push(line);
                                proof {
                                    let pe = Event::Print(v);
                                    lemma_output_lines_push(mid, pe, trace);
                                    assert(seq![pe].drop_first() =~= Seq::<Event>::empty());
                                    assert(output_lines(Seq::<Event>::empty(), trace) == Seq::<Seq<char>>::empty());
                                    assert(seq![pe][0] == pe);
                                    assert(event_lines(pe, trace) =~= seq![dec_int(v as int)]);
                                    assert(strings_view(output@) =~= output_lines(mid.push(pe), trace));
                                    let rest = execute(code@, next as int, stack@, globals@);
                                    assert(r.0 == seq![ev] + seq![pe] + rest.0);
                                    assert(done + r.0 =~= mid.push(pe) + rest.0);
                                    done = mid.push(pe);
                                }
                            },
                            None => {
                                proof {
                                    let rest = execute(code@, next as int, stack@, globals@);
                                    assert(r.0 == seq![ev] + Seq::<Event>::empty() + rest.0);
                                    assert(done + r.0 =~= mid + rest.0);
                                    done = mid;
                                }
                            },
                        }
                        ip = next;
                    },
                    Done::Halt => {
                        proof {
                            assert(done + r.0 =~= done.push(ev));
                        }
                        return Execution { output, outcome: Outcome::Halted };
                    },
                    Done::Trap(f) => {
                        proof {
                            assert(done + r.0 =~= done.push(ev));
                        }
                        return Execution { output, outcome: Outcome::Trapped(trap_message(ip, f)) };
                    },
                    Done::Overflow(a) => {
                        proof {
                            assert(done + r.0 =~= done.push(ev));
                        }
                        return Execution { output, outcome: Outcome::Overflowed(overflow_message(a)) };
                    },
                }
            },
        }
    }
}

/// Runs `code`: the values it printed, one per line, and how it ended.
pub fn run(code: &[u8]) -> (e: Execution)
    ensures
        execution_of(e, code@, false),
{
    run_internal(code, false)
}

/// Runs `code` in trace mode: before each instruction, a line with its
/// position, its text and the stack.
pub fn run_trace(code: &[u8]) -> (e: Execution)
    ensures
        execution_of(e, code@, true),
{
    run_internal(code, true)
}

/// Every instruction leaves the stack within its limit and keeps the
/// number of globals.
pub proof fn lemma_step_keeps_bounds(op: Op, stack: Seq<i64>, globals: Seq<i64>)
    requires
        stack.len() <= STACK_LIMIT,
        globals.len() == GLOBAL_SLOTS,
    ensures
        step(op, stack, globals) matches Effect::Continue(s, g, _) ==> s.len() <= STACK_LIMIT
            && g.len() == GLOBAL_SLOTS,
{
    let n = stack.len();
    match op {
        Op::Add | Op::Sub | Op::Mul | Op::Div | Op::Mod => {
            if n >= 2 {
                assert(stack.take(n - 2).len() == n - 2);
            }
        },
        Op::Store(i) => {
            assert((i as int) < GLOBAL_SLOTS);
        },
        _ => {},
    }
}

pub open spec fn traced_stacks_bounded(events: Seq<Event>) -> bool {
    forall|k: int|
        0 <= k < events.len() ==> (#[trigger] events[k] matches Event::Trace(_, _, st)
            ==> st.len() <= STACK_LIMIT)
}

proof fn lemma_execute_bounded(code: Seq<u8>, ip: int, stack: Seq<i64>, globals: Seq<i64>)
    requires
        stack.len() <= STACK_LIMIT,
        globals.len() == GLOBAL_SLOTS,
    ensures
        traced_stacks_bounded(execute(code, ip, stack, globals).0),
    decreases code.len() - ip,
{
    if 0 <= ip < code.len() {
        if let Ok((op, next)) = spec_decode(code, ip) {
            lemma_decode_advances(code, ip);
            lemma_step_keeps_bounds(op, stack, globals);
            if let Effect::Continue(s, g, printed) = step(op, stack, globals) {
                lemma_execute_bounded(code, next, s, g);
                let rest = execute(code, next, s, g).0;
                let shown = match printed {
                    Some(v) => seq![Event::Print(v)],
                    None => Seq::<Event>::empty(),
                };
                let all = execute(code, ip, stack, globals).0;
                assert(all == seq![Event::Trace(ip, op, stack)] + shown + rest);
                assert forall|k: int| 0 <= k < all.len() implies (#[trigger] all[k] matches Event::Trace(_, _, st)
                    ==> st.len() <= STACK_LIMIT) by {
                    if k >= 1 + shown.len() {
                        assert(all[k] == rest[k - 1 - shown.len()]);
                    }
                }
            }
        }
    }
}

/// The stack never holds more than `STACK_LIMIT` values: every stack that a
/// run shows is within the limit.
pub proof fn law_stack_bounded(code: Seq<u8>)
    ensures
        traced_stacks_bounded(run_spec(code).0),
{
    lemma_execute_bounded(code, 0, seq![], initial_globals());
}

pub open spec fn all_pushes(ops: Seq<Op>) -> bool {
    forall|i: int| 0 <= i < ops.len() ==> #[trigger] ops[i] is Push
}

/// The values that a sequence of `PUSH` instructions pushes, in order.
pub open spec fn pushed_values(ops: Seq<Op>) -> Seq<i64> {
    ops.map_values(
        |op: Op|
            match op {
                Op::Push(v) => v,
                _ => 0,
            },
    )
}

proof fn lemma_pushes_encoding_len(ops: Seq<Op>)
    requires
        all_pushes(ops),
    ensures
        encode_all(ops).len() == 9 * ops.len(),
    decreases ops.len(),
{
    vstd::bytes::lemma_auto_spec_u64_to_from_le_bytes();
    if ops.len() > 0 {
        assert(ops[0] is Push);
        let rest = ops.drop_first();
        assert(all_pushes(rest)) by {
            assert forall|i: int| 0 <= i < rest.len() implies #[trigger] rest[i] is Push by {
                assert(rest[i] == ops[i + 1]);
            }
        }
        lemma_pushes_encoding_len(rest);
    }
}

/// Running a block of `PUSH` instructions that fits on the stack ends the
/// way running on from after the block, with the values pushed, ends.
proof fn lemma_run_pushes(
    prefix: Seq<u8>,
    ops: Seq<Op>,
    suffix: Seq<u8>,
    stack: Seq<i64>,
    globals: Seq<i64>,
)
    requires
        all_pushes(ops),
        stack.len() + ops.len() <= STACK_LIMIT,
    ensures
        execute(prefix + encode_all(ops) + suffix, prefix.len() as int, stack, globals).1
            == execute(
            prefix + encode_all(ops) + suffix,
            (prefix.len() + 9 * ops.len()) as int,
            stack + pushed_values(ops),
            globals,
        ).1,
    decreases ops.len(),
{
    vstd::bytes::lemma_auto_spec_u64_to_from_le_bytes();
    let code = prefix + encode_all(ops) + suffix;
    if ops.len() == 0 {
        assert(stack + pushed_values(ops) =~= stack);
    } else {
        let op = ops[0];
        let rest = ops.drop_first();
        assert(op is Push);
        let v = op->Push_0;
        assert(all_pushes(rest)) by {
            assert forall|i: int| 0 <= i < rest.len() implies #[trigger] rest[i] is Push by {
                assert(rest[i] == ops[i + 1]);
            }
        }
        assert(code =~= prefix + encoding(op) + (encode_all(rest) + suffix));
        lemma_decode_encoding(op, prefix, encode_all(rest) + suffix);
        assert(encoding(op).len() == 9);
        let prefix2 = prefix + encoding(op);
        assert(code =~= prefix2 + encode_all(rest) + suffix);
        lemma_run_pushes(prefix2, rest, suffix, stack.push(v), globals);
        assert(stack.push(v) + pushed_values(rest) =~= stack + pushed_values(ops));
        assert(code.len() > prefix.len());
    }
}

/// The stack holds exactly `STACK_LIMIT` values: that many `PUSH`
/// instructions, or fewer, then `HALT`, halt; one more traps with a stack
/// overflow at the extra `PUSH`.
pub proof fn law_stack_holds_limit(ops: Seq<Op>)
    requires
        all_pushes(ops),
    ensures
        ops.len() <= STACK_LIMIT ==> run_spec(encode_all(ops.push(Op::Halt))).1 is Halted,
        ops.len() == STACK_LIMIT + 1 ==> (run_spec(encode_all(ops.push(Op::Halt))).1 matches Stop::Trapped(
            ip,
            f,
        ) && ip == 9 * STACK_LIMIT && f == Fault::StackOverflow),
{
    vstd::bytes::lemma_auto_spec_u64_to_from_le_bytes();
    let e = Seq::<u8>::empty();
    let g = initial_globals();
    let s0 = Seq::<i64>::empty();
    lemma_encode_all_push(ops, Op::Halt);
    let halt = encoding(Op::Halt);
    if ops.len() <= STACK_LIMIT {
        let code = encode_all(ops) + halt;
        assert(code =~= e + encode_all(ops) + halt);
        lemma_run_pushes(e, ops, halt, s0, g);
        lemma_pushes_encoding_len(ops);
        assert(code =~= encode_all(ops) + halt + e);
        lemma_decode_encoding(Op::Halt, encode_all(ops), e);
    }
    if ops.len() == STACK_LIMIT + 1 {
        let first = ops.drop_last();
        let last = ops.last();
        assert(last is Push);
        assert(all_pushes(first)) by {
            assert forall|i: int| 0 <= i < first.len() implies #[trigger] first[i] is Push by {
                assert(first[i] == ops[i]);
            }
        }
        assert(ops =~= first.push(last));
        lemma_encode_all_push(first, last);
        let tail = encoding(last) + halt;
        let code = encode_all(ops) + halt;
        assert(code =~= e + encode_all(first) + tail);
        lemma_run_pushes(e, first, tail, s0, g);
        lemma_pushes_encoding_len(first);
        assert(code =~= encode_all(first) + encoding(last) + halt);
        lemma_decode_encoding(last, encode_all(first), halt);
        assert((s0 + pushed_values(first)).len() == STACK_LIMIT);
    }
}

/// `PUSH v` puts `v` on top of the stack, unless the stack is full.
pub proof fn law_push(v: i64, stack: Seq<i64>, globals: Seq<i64>)
    ensures
        stack.len() < STACK_LIMIT ==> step(Op::Push(v), stack, globals) == Effect::Continue(
            stack.push(v),
            globals,
            None,
        ),
        stack.len() >= STACK_LIMIT ==> step(Op::Push(v), stack, globals) == Effect::Trap(
            Fault::StackOverflow,
        ),
{
}

/// `POP` removes the top value; `PRINT` removes it and prints it.
pub proof fn law_pop_print(stack: Seq<i64>, globals: Seq<i64>)
    ensures
        stack.len() >= 1 ==> step(Op::Pop, stack, globals) == Effect::Continue(
            stack.take(stack.len() - 1),
            globals,
            None,
        ),
        stack.len() >= 1 ==> step(Op::Print, stack, globals) == Effect::Continue(
            stack.take(stack.len() - 1),
            globals,
            Some(stack[stack.len() - 1]),
        ),
        stack.len() == 0 ==> step(Op::Pop, stack, globals) == Effect::Trap(Fault::StackUnderflow),
        stack.len() == 0 ==> step(Op::Print, stack, globals) == Effect::Trap(Fault::StackUnderflow),
{
}

/// `DUP` pushes a copy of the top value.
pub proof fn law_dup(stack: Seq<i64>, globals: Seq<i64>)
    ensures
        1 <= stack.len() < STACK_LIMIT ==> step(Op::Dup, stack, globals) == Effect::Continue(
            stack.push(stack[stack.len() - 1]),
            globals,
            None,
        ),
        stack.len() == 0 ==> step(Op::Dup, stack, globals) == Effect::Trap(Fault::StackUnderflow),
        stack.len() >= STACK_LIMIT ==> step(Op::Dup, stack, globals) == Effect::Trap(
            Fault::StackOverflow,
        ),
{
}

/// `SWAP` exchanges the two top values and leaves the rest in place.
pub proof fn law_swap(stack: Seq<i64>, globals: Seq<i64>)
    ensures
        stack.len() >= 2 ==> (step(Op::Swap, stack, globals) matches Effect::Continue(s, g, p) && {
            let n = stack.len() as int;
            &&& s.len() == n
            &&& s[n - 1] == stack[n - 2]
            &&& s[n - 2] == stack[n - 1]
            &&& forall|k: int| 0 <= k < n - 2 ==> s[k] == stack[k]
            &&& g == globals
            &&& p is None
        }),
        stack.len() < 2 ==> step(Op::Swap, stack, globals) == Effect::Trap(Fault::StackUnderflow),
{
}

/// `ADD`, `SUB` and `MUL` replace the two top values `a` (below) and `b`
/// (top) by `a + b`, `a - b` and `a * b`, where that fits in an `i64`.
pub proof fn law_add_sub_mul(stack: Seq<i64>, globals: Seq<i64>)
    ensures
        stack.len() >= 2 ==> {
            let n = stack.len() as int;
            let a = stack[n - 2] as int;
            let b = stack[n - 1] as int;
            let rest = stack.take(n - 2);
            &&& i64::MIN <= a + b <= i64::MAX ==> step(Op::Add, stack, globals)
                == Effect::Continue(rest.push((a + b) as i64), globals, None)
            &&& !(i64::MIN <= a + b <= i64::MAX) ==> step(Op::Add, stack, globals)
                == Effect::Overflow(Arith::Add)
            &&& i64::MIN <= a - b <= i64::MAX ==> step(Op::Sub, stack, globals)
                == Effect::Continue(rest.push((a - b) as i64), globals, None)
            &&& !(i64::MIN <= a - b <= i64::MAX) ==> step(Op::Sub, stack, globals)
                == Effect::Overflow(Arith::Sub)
            &&& i64::MIN <= a * b <= i64::MAX ==> step(Op::Mul, stack, globals)
                == Effect::Continue(rest.push((a * b) as i64), globals, None)
            &&& !(i64::MIN <= a * b <= i64::MAX) ==> step(Op::Mul, stack, globals)
                == Effect::Overflow(Arith::Mul)
        },
        stack.len() < 2 ==> step(Op::Add, stack, globals) == Effect::Trap(Fault::StackUnderflow)
            && step(Op::Sub, stack, globals) == Effect::Trap(Fault::StackUnderflow) && step(
            Op::Mul,
            stack,
            globals,
        ) == Effect::Trap(Fault::StackUnderflow),
{
}

proof fn lemma_div_mod_nat(x: int, d: int)
    requires
        x >= 0,
        d > 0,
    ensures
        x == (x / d) * d + x % d,
        0 <= x % d < d,
        0 <= x / d <= x,
{
    vstd::arithmetic::div_mod::lemma_fundamental_div_mod(x, d);
    vstd::arithmetic::div_mod::lemma_mod_bound(x, d);
    vstd::arithmetic::div_mod::lemma_div_pos_is_pos(x, d);
    vstd::arithmetic::div_mod::lemma_div_is_ordered_by_denominator(x, 1, d);
    assert(x / 1 == x) by {
        vstd::arithmetic::div_mod::lemma_div_basics(x);
    }
    assert((x / d) * d == d * (x / d)) by (nonlinear_arith);
}

/// Division that rounds toward zero, and its remainder, as Rust's `/` and
/// `%` on integers compute them: `q * b + r == a`, `|r| < |b|`, and `r` is
/// zero or has the sign of `a`.
pub open spec fn truncated_division(a: int, b: int, q: int, r: int) -> bool {
    &&& q * b + r == a
    &&& (if r < 0 {
        -r
    } else {
        r
    }) < (if b < 0 {
        -b
    } else {
        b
    })
    &&& (r == 0 || (r < 0) == (a < 0))
}

proof fn lemma_checked_div_rem(a: i64, b: i64)
    requires
        b != 0,
        !(a == i64::MIN && b == -1),
    ensures
        a.checked_div(b) is Some,
        a.checked_rem(b) is Some,
        truncated_division(
            a as int,
            b as int,
            a.checked_div(b)->Some_0 as int,
            a.checked_rem(b)->Some_0 as int,
        ),
{
    let x = a as int;
    let d = b as int;
    let xx = if x < 0 {
        -x
    } else {
        x
    };
    let dd = if d < 0 {
        -d
    } else {
        d
    };
    lemma_div_mod_nat(xx, dd);
    let q0 = xx / dd;
    let m0 = xx % dd;
    let q = a.checked_div(b)->Some_0 as int;
    let r = a.checked_rem(b)->Some_0 as int;
    if x == 0 {
        assert(q == 0 && r == 0);
        assert(q * d == 0) by (nonlinear_arith)
            requires
                q == 0,
        ;
        assert(truncated_division(x, d, q, r));
    } else if x > 0 && d > 0 {
        assert(q == q0 && r == m0);
        assert(truncated_division(x, d, q, r));
    } else if x < 0 && d < 0 {
        assert((x * -1) == xx);
        assert((d * -1) == dd);
        if xx == 0x8000_0000_0000_0000 {
            assert(dd >= 2);
            assert(q0 * dd <= xx) by (nonlinear_arith)
                requires
                    xx == q0 * dd + m0,
                    m0 >= 0,
            ;
            assert(q0 < xx) by (nonlinear_arith)
                requires
                    q0 * dd <= xx,
                    dd >= 2,
                    xx > 0,
                    q0 >= 0,
            ;
        }
        assert(q == q0 && r == -m0);
        assert(q0 * d + (-m0) == x) by (nonlinear_arith)
            requires
                xx == q0 * dd + m0,
                dd == -d,
                xx == -x,
        ;
        assert(truncated_division(x, d, q, r));
    } else if x < 0 {
        assert((x * -1) == xx);
        assert(q == -q0 && r == -m0);
        assert(-q0 * d + (-m0) == x) by (nonlinear_arith)
            requires
                xx == q0 * dd + m0,
                dd == d,
                xx == -x,
        ;
        assert(truncated_division(x, d, q, r));
    } else {
        assert((d * -1) == dd);
        assert(q == -q0 && r == m0);
        assert(-q0 * d + m0 == x) by (nonlinear_arith)
            requires
                xx == q0 * dd + m0,
                dd == -d,
                xx == x,
        ;
        assert(truncated_division(x, d, q, r));
    }
}

/// `DIV` and `MOD` replace the two top values `a` (below) and `b` (top) by
/// the quotient and the remainder of `a` by `b`, rounded toward zero. A
/// zero `b` traps; `i64::MIN` by -1 has no `i64` result.
pub proof fn law_div_mod(stack: Seq<i64>, globals: Seq<i64>)
    ensures
        stack.len() >= 2 ==> {
            let n = stack.len() as int;
            let a = stack[n - 2];
            let b = stack[n - 1];
            let rest = stack.take(n - 2);
            &&& b == 0 ==> step(Op::Div, stack, globals) == Effect::Trap(Fault::DivideByZero)
                && step(Op::Mod, stack, globals) == Effect::Trap(Fault::ModuloByZero)
            &&& a == i64::MIN && b == -1 ==> step(Op::Div, stack, globals) == Effect::Overflow(
                Arith::Div,
            ) && step(Op::Mod, stack, globals) == Effect::Overflow(Arith::Rem)
            &&& b != 0 && !(a == i64::MIN && b == -1) ==> (step(Op::Div, stack, globals) matches Effect::Continue(
                s1,
                g1,
                p1,
            ) && step(Op::Mod, stack, globals) matches Effect::Continue(s2, g2, p2)
                && s1.len() == n - 1 && s2.len() == n - 1 && s1.take(n - 2) == rest
                && s2.take(n - 2) == rest && g1 == globals && g2 == globals && p1 is None
                && p2 is None && truncated_division(
                a as int,
                b as int,
                s1[n - 2] as int,
                s2[n - 2] as int,
            ))
        },
        stack.len() < 2 ==> step(Op::Div, stack, globals) == Effect::Trap(Fault::StackUnderflow)
            && step(Op::Mod, stack, globals) == Effect::Trap(Fault::StackUnderflow),
{
    if stack.len() >= 2 {
        let n = stack.len() as int;
        let a = stack[n - 2];
        let b = stack[n - 1];
        let rest = stack.take(n - 2);
        if b != 0 && !(a == i64::MIN && b == -1) {
            lemma_checked_div_rem(a, b);
            let q = a.checked_div(b)->Some_0;
            let r = a.checked_rem(b)->Some_0;
            assert(rest.push(q).take(n - 2) =~= rest);
            assert(rest.push(r).take(n - 2) =~= rest);
        }
    }
}

/// `NEG` replaces the top value by its negation, where that exists.
pub proof fn law_neg(stack: Seq<i64>, globals: Seq<i64>)
    ensures
        stack.len() >= 1 && stack[stack.len() - 1] != i64::MIN ==> step(Op::Neg, stack, globals)
            == Effect::Continue(
            stack.update(stack.len() - 1, (-stack[stack.len() - 1]) as i64),
            globals,
            None,
        ),
        stack.len() >= 1 && stack[stack.len() - 1] == i64::MIN ==> step(Op::Neg, stack, globals)
            == Effect::Overflow(Arith::Neg),
        stack.len() == 0 ==> step(Op::Neg, stack, globals) == Effect::Trap(Fault::StackUnderflow),
{
}

/// `LOAD i` pushes global `i`; `STORE i` pops the top value into global
/// `i`; `HALT` stops.
pub proof fn law_load_store_halt(i: u8, stack: Seq<i64>, globals: Seq<i64>)
    ensures
        stack.len() < STACK_LIMIT ==> step(Op::Load(i), stack, globals) == Effect::Continue(
            stack.push(globals[i as int]),
            globals,
            None,
        ),
        stack.len() >= STACK_LIMIT ==> step(Op::Load(i), stack, globals) == Effect::Trap(
            Fault::StackOverflow,
        ),
        stack.len() >= 1 ==> step(Op::Store(i), stack, globals) == Effect::Continue(
            stack.take(stack.len() - 1),
            globals.update(i as int, stack[stack.len() - 1]),
            None,
        ),
        stack.len() == 0 ==> step(Op::Store(i), stack, globals) == Effect::Trap(
            Fault::StackUnderflow,
        ),
        step(Op::Halt, stack, globals) == Effect::Halt,
{
}

/// The line that `PRINT` gives for a value.
pub open spec fn print_text(v: i64) -> Seq<char> {
    output_lines(seq![Event::Print(v)], false)[0]
}

/// The stack in a trace line lists its values bottom first, each written as
/// `PRINT` writes it, separated by `, ` inside brackets; and that text of a
/// value reads back as the value.
pub proof fn law_stack_text(s: Seq<i64>, v: i64)
    ensures
        stack_text(Seq::<i64>::empty()) == "[]"@,
        stack_text(s.push(v)) == (if s.len() == 0 {
            "["@
        } else {
            stack_text(s).drop_last() + ", "@
        }) + print_text(v) + "]"@,
        parse_i64_value(print_text(v)) == Some(v),
{
    reveal_strlit("[]");
    reveal_strlit("[");
    reveal_strlit("]");
    let e = seq![Event::Print(v)];
    assert(e.drop_first() =~= Seq::<Event>::empty());
    assert(output_lines(Seq::<Event>::empty(), false) == Seq::<Seq<char>>::empty());
    assert(e[0] == Event::Print(v));
    assert(output_lines(e, false) =~= seq![dec_int(v as int)]);
    assert(print_text(v) == dec_int(v as int));
    lemma_parse_dec_i64(v);
    assert(join_values(Seq::<i64>::empty()) == Seq::<char>::empty());
    assert(stack_text(Seq::<i64>::empty()) =~= "[]"@);
    let t = s.push(v);
    assert(t.drop_last() =~= s);
    assert(t.last() == v);
    if s.len() == 0 {
        assert(t.len() == 1);
        assert(t[0] == v);
        assert(stack_text(t) =~= "["@ + print_text(v) + "]"@);
    } else {
        assert(join_values(t) == join_values(s) + ", "@ + dec_int(v as int));
        assert(stack_text(s).drop_last() =~= "["@ + join_values(s));
        assert(stack_text(t) =~= stack_text(s).drop_last() + ", "@ + print_text(v) + "]"@);
    }
}

/// A run goes instruction by instruction: it reports the instruction at
/// `ip` with the stack before it, prints what `PRINT` prints, and goes on
/// from the next instruction; it stops at `HALT`, at a trap of the
/// instruction at `ip`, at bytes that are no instruction, or past the end.
pub proof fn law_execute_step(code: Seq<u8>, ip: int, stack: Seq<i64>, globals: Seq<i64>)
    requires
        0 <= ip,
    ensures
        ip >= code.len() ==> execute(code, ip, stack, globals) == (
            Seq::<Event>::empty(),
            Stop::Trapped(ip, Fault::MissingHalt),
        ),
        ip < code.len() ==> match spec_decode(code, ip) {
            Err(e) => execute(code, ip, stack, globals) == (
                Seq::<Event>::empty(),
                Stop::Trapped(ip, Fault::Decode(e)),
            ),
            Ok((op, next)) => {
                let t = Event::Trace(ip, op, stack);
                match step(op, stack, globals) {
                    Effect::Continue(s, g, None) => execute(code, ip, stack, globals) == (
                        seq![t] + execute(code, next, s, g).0,
                        execute(code, next, s, g).1,
                    ),
                    Effect::Continue(s, g, Some(v)) => execute(code, ip, stack, globals) == (
                        seq![t, Event::Print(v)] + execute(code, next, s, g).0,
                        execute(code, next, s, g).1,
                    ),
                    Effect::Halt => execute(code, ip, stack, globals) == (seq![t], Stop::Halted),
                    Effect::Trap(f) => execute(code, ip, stack, globals) == (
                        seq![t],
                        Stop::Trapped(ip, f),
                    ),
                    Effect::Overflow(a) => execute(code, ip, stack, globals) == (
                        seq![t],
                        Stop::Overflowed(ip, a),
                    ),
                }
            },
        },
{
    if ip < code.len() {
        if let Ok((op, next)) = spec_decode(code, ip) {
            if let Effect::Continue(s, g, p) = step(op, stack, globals) {
                let t = Event::Trace(ip, op, stack);
                let rest = execute(code, next, s, g).0;
                match p {
                    Some(v) => assert(seq![t] + seq![Event::Print(v)] + rest =~= seq![t, Event::Print(v)] + rest),
                    None => assert(seq![t] + Seq::<Event>::empty() + rest =~= seq![t] + rest),
                }
            }
        }
    }
}

/// A run starts at the first byte, on an empty stack and 256 globals that
/// are all zero.
pub proof fn law_initial_state(code: Seq<u8>)
    ensures
        run_spec(code) == execute(code, 0, Seq::<i64>::empty(), initial_globals()),
        initial_globals().len() == 256,
        forall|k: int| 0 <= k < 256 ==> initial_globals()[k] == 0,
{
}

/// The line of a trace: `ip=` and the position in decimal, a space, the
/// instruction's text, ` stack=` and the stack.
pub proof fn law_trace_line(ip: nat, op: Op, stack: Seq<i64>)
    ensures
        output_lines(seq![Event::Trace(ip as int, op, stack)], true) == seq![
            "ip="@ + dec_digits(ip) + " "@ + op_text(op) + " stack="@ + stack_text(stack),
        ],
        output_lines(seq![Event::Trace(ip as int, op, stack)], false) == Seq::<Seq<char>>::empty(),
{
    let e = seq![Event::Trace(ip as int, op, stack)];
    assert(e.drop_first() =~= Seq::<Event>::empty());
    assert(output_lines(Seq::<Event>::empty(), true) == Seq::<Seq<char>>::empty());
    assert(output_lines(Seq::<Event>::empty(), false) == Seq::<Seq<char>>::empty());
    assert(e[0] == Event::Trace(ip as int, op, stack));
    assert(output_lines(e, true) =~= seq![trace_text(ip as int, op, stack)]);
}

/// The report of each trap, and the message of each overflow.
pub proof fn law_reports(ip: nat, e: DecodeError)
    ensures
        trap_text(ip as int, Fault::StackUnderflow) == "trap at ip=0x"@ + hex4(ip) + ": "@
            + "stack underflow"@,
        trap_text(ip as int, Fault::StackOverflow) == "trap at ip=0x"@ + hex4(ip) + ": "@
            + "stack overflow"@,
        trap_text(ip as int, Fault::DivideByZero) == "trap at ip=0x"@ + hex4(ip) + ": "@
            + "divide by zero"@,
        trap_text(ip as int, Fault::ModuloByZero) == "trap at ip=0x"@ + hex4(ip) + ": "@
            + "modulo by zero"@,
        trap_text(ip as int, Fault::MissingHalt) == "trap at ip=0x"@ + hex4(ip) + ": "@
            + "missing HALT"@,
        trap_text(ip as int, Fault::Decode(e)) == "trap at ip=0x"@ + hex4(ip) + ": "@
            + decode_error_text(e),
        overflow_text(Arith::Add) == "attempt to add with overflow"@,
        overflow_text(Arith::Sub) == "attempt to subtract with overflow"@,
        overflow_text(Arith::Mul) == "attempt to multiply with overflow"@,
        overflow_text(Arith::Div) == "attempt to divide with overflow"@,
        overflow_text(Arith::Rem) == "attempt to calculate the remainder with overflow"@,
        overflow_text(Arith::Neg) == "attempt to negate with overflow"@,
{
}

/// A program whose first instruction is `HALT` stops there and prints
/// nothing.
pub proof fn law_halt_first(code: Seq<u8>)
    requires
        code.len() > 0,
        code[0] == 0xff,
    ensures
        run_spec(code).1 is Halted,
        output_lines(run_spec(code).0, false) == Seq::<Seq<char>>::empty(),
{
    let events = run_spec(code).0;
    assert(events == seq![Event::Trace(0, Op::Halt, Seq::<i64>::empty())]);
    assert(events.drop_first() =~= Seq::<Event>::empty());
    assert(output_lines(Seq::<Event>::empty(), false) == Seq::<Seq<char>>::empty());
}

/// Whether a printed line is a trace line: it starts with `ip=`.
pub open spec fn is_trace_line(l: Seq<char>) -> bool {
    l.len() >= 3 && l.take(3) == "ip="@
}

/// The lines that are not trace lines, in order.
pub open spec fn without_trace_lines(ls: Seq<Seq<char>>) -> Seq<Seq<char>>
    decreases ls.len(),
{
    if ls.len() == 0 {
        seq![]
    } else if is_trace_line(ls[0]) {
        without_trace_lines(ls.drop_first())
    } else {
        seq![ls[0]] + without_trace_lines(ls.drop_first())
    }
}

proof fn lemma_without_trace_lines(events: Seq<Event>)
    ensures
        without_trace_lines(output_lines(events, true)) == output_lines(events, false),
    decreases events.len(),
{
    reveal_strlit("ip=");
    if events.len() > 0 {
        lemma_without_trace_lines(events.drop_first());
        let rest_t = output_lines(events.drop_first(), true);
        let lt = output_lines(events, true);
        match events[0] {
            Event::Trace(ip, op, stack) => {
                let l = trace_text(ip, op, stack);
                assert(lt == seq![l] + rest_t);
                assert(l.take(3) =~= "ip="@);
                assert(lt[0] == l);
                assert(lt.drop_first() =~= rest_t);
            },
            Event::Print(v) => {
                let l = dec_int(v as int);
                if v < 0 {
                    assert(l[0] == '-');
                } else {
                    lemma_dec_digits(v as nat);
                    assert(is_digit(l[0]));
                }
                assert(l.len() >= 3 ==> l.take(3)[0] == l[0]);
                assert("ip="@[0] == 'i');
                assert(!is_trace_line(l));
                assert(lt == seq![l] + rest_t);
                assert(lt[0] == l);
                assert(lt.drop_first() =~= rest_t);
            },
        }
    }
}

/// Tracing changes what is printed, not how a run ends: it only adds the
/// trace lines, and without them the traced output is the plain output.
pub proof fn law_trace_keeps_outcome(plain: Execution, traced: Execution, code: Seq<u8>)
    requires
        execution_of(plain, code, false),
        execution_of(traced, code, true),
    ensures
        plain.outcome is Halted <==> traced.outcome is Halted,
        plain.outcome is Trapped <==> traced.outcome is Trapped,
        plain.outcome is Trapped ==> plain.outcome->Trapped_0@ == traced.outcome->Trapped_0@,
        plain.outcome is Overflowed ==> plain.outcome->Overflowed_0@
            == traced.outcome->Overflowed_0@,
        without_trace_lines(strings_view(traced.output@)) == strings_view(plain.output@),
{
    lemma_without_trace_lines(run_spec(code).0);
}

/// `POP` undoes `PUSH`.
pub proof fn law_pop_undoes_push(v: i64, stack: Seq<i64>, globals: Seq<i64>)
    requires
        stack.len() < STACK_LIMIT,
    ensures
        step(Op::Push(v), stack, globals) == Effect::Continue(stack.push(v), globals, None),
        step(Op::Pop, stack.push(v), globals) == Effect::Continue(stack, globals, None),
{
    assert(stack.push(v).drop_last() =~= stack);
}

/// `SWAP` undoes itself.
pub proof fn law_swap_twice(stack: Seq<i64>, globals: Seq<i64>)
    requires
        stack.len() >= 2,
    ensures
        step(Op::Swap, stack, globals) matches Effect::Continue(s, g, None) && step(Op::Swap, s, g)
            == Effect::Continue(stack, globals, None),
{
    let n = stack.len() as int;
    let s = stack.update(n - 1, stack[n - 2]).update(n - 2, stack[n - 1]);
    assert(s.update(n - 1, s[n - 2]).update(n - 2, s[n - 1]) =~= stack);
}

/// `NEG` undoes itself, where the negation exists.
pub proof fn law_neg_twice(stack: Seq<i64>, globals: Seq<i64>)
    requires
        stack.len() >= 1,
        stack.last() != i64::MIN,
    ensures
        step(Op::Neg, stack, globals) matches Effect::Continue(s, g, None) && step(Op::Neg, s, g)
            == Effect::Continue(stack, globals, None),
{
    let n = stack.len() as int;
    let s = stack.update(n - 1, (-stack.last()) as i64);
    assert(s.update(n - 1, (-s.last()) as i64) =~= stack);
}

/// `LOAD` of a slot gives back the value that `STORE` put there.
pub proof fn law_load_after_store(i: u8, v: i64, stack: Seq<i64>, globals: Seq<i64>)
    requires
        stack.len() < STACK_LIMIT,
        globals.len() == GLOBAL_SLOTS,
    ensures
        step(Op::Store(i), stack.push(v), globals) == Effect::Continue(
            stack,
            globals.update(i as int, v),
            None,
        ),
        step(Op::Load(i), stack, globals.update(i as int, v)) == Effect::Continue(
            stack.push(v),
            globals.update(i as int, v),
            None,
        ),
{
    assert(stack.push(v).drop_last() =~= stack);
}

/// Runs the code held by a bytecode file, or gives the text of why the file
/// is refused.
pub fn run_file(file: &[u8], trace: bool) -> (r: Result<Execution, String>)
    ensures
        match read_container(file@) {
            Ok(code) => r is Ok && execution_of(r->Ok_0, code, trace),
            Err(m) => r is Err && r->Err_0@ == m,
        },
{
    let code = read_bytecode(file)?;
    if trace {
        Ok(run_trace(code.as_slice()))
    } else {
        Ok(run(code.as_slice()))
    }
}

} // verus!
