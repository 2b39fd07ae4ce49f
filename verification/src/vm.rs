//! Virtual machine: executes the flat bytecode against a fixed tape of
//! 30,000 byte cells with wraparound arithmetic on both the cell values
//! and the cell pointer.
//!
//! The machine is specified by a small-step semantics over
//! [`MachineState`] and a fuel-bounded [`run`] function: `run(code, s, n)`
//! is the state after at most `n` steps, stopping early — and staying
//! fixed — once no step is possible, either because the program counter
//! left the code (the program halted) or because a `Read` stands at the
//! front with no input byte left to give.  The interpreter returns
//! exactly the output of `run` at its fuel, and says which of the three
//! ends was reached.
//!
//! Input is line buffered: when the pending queue is empty, the next
//! line whose bytes are all in the single-byte range is taken whole;
//! lines with bytes outside that range are never consumed.

use vstd::prelude::*;
use crate::lower::BytecodeElement;
use crate::lower::code_ok;

verus! {

/// Number of cells on the tape.
pub const TAPE_LEN: usize = 30000;

/// The whole state of the machine, as the specification sees it:
/// the tape, the cell pointer, the program counter, the pending input
/// queue, the input lines not yet consumed, and the output so far.
#[verifier::ext_equal]
pub struct MachineState {
    pub tape: Seq<u8>,
    pub pointer: int,
    pub pc: int,
    pub queue: Seq<u8>,
    pub lines: Seq<Seq<u8>>,
    pub output: Seq<u8>,
}

/// The machine state the interpreter's working values stand for.
pub open spec fn abs_state(
    tape: Seq<u8>,
    pointer: int,
    pc: int,
    queue: Seq<u8>,
    lines: Seq<Seq<u8>>,
    output: Seq<u8>,
) -> MachineState {
    MachineState { tape, pointer, pc, queue, lines, output }
}

/// A cell value one step out of range wraps around: 256 becomes 0 and
/// -1 becomes 255.
pub open spec fn wrap_byte(v: int) -> int {
    (v + 256) % 256
}

/// A pointer one step out of range wraps around: 30000 becomes 0 and
/// -1 becomes 29999.
pub open spec fn wrap_pointer(p: int) -> int {
    (p + 30000) % 30000
}

/// A line may be enqueued only if every byte is a single-byte (ASCII)
/// character.
pub open spec fn valid_line(l: Seq<u8>) -> bool {
    forall|k: int| 0 <= k < l.len() ==> (#[trigger] l[k]) < 128
}

/// Index of the first line that may be enqueued, or the number of
/// lines if there is none.
pub open spec fn first_valid(lines: Seq<Seq<u8>>) -> int
    decreases lines.len(),
{
    if lines.len() == 0 {
        0
    } else if valid_line(lines[0]) {
        0
    } else {
        1 + first_valid(lines.drop_first())
    }
}

/// The program counter indexes an instruction.
pub open spec fn can_fetch(code: Seq<BytecodeElement>, s: MachineState) -> bool {
    0 <= s.pc < code.len()
}

/// A byte can be had: one is pending in the queue, or the first valid
/// line has one.
pub open spec fn bytes_available(queue: Seq<u8>, lines: Seq<Seq<u8>>) -> bool {
    ||| queue.len() > 0
    ||| {
        let j = first_valid(lines);
        j < lines.len() && lines[j].len() > 0
    }
}

/// A `Read` can be served: a byte is pending, or the first valid line
/// has one.
pub open spec fn input_available(s: MachineState) -> bool {
    bytes_available(s.queue, s.lines)
}

/// The machine stands at a `Read` that cannot be served.
pub open spec fn input_stuck(code: Seq<BytecodeElement>, s: MachineState) -> bool {
    can_fetch(code, s) && code[s.pc] is Read && !input_available(s)
}

/// The machine can take one step.
pub open spec fn can_step(code: Seq<BytecodeElement>, s: MachineState) -> bool {
    can_fetch(code, s) && !input_stuck(code, s)
}

/// One step of the machine.  Jumps replace the program counter with
/// their target when taken; every other instruction, and a jump not
/// taken, advances it by one.
pub open spec fn step(code: Seq<BytecodeElement>, s: MachineState) -> MachineState {
    match code[s.pc] {
        BytecodeElement::ChangeValue(d) => MachineState {
            tape: s.tape.update(s.pointer, wrap_byte(s.tape[s.pointer] + d) as u8),
            pc: s.pc + 1,
            ..s
        },
        BytecodeElement::MovePointer(d) => MachineState {
            pointer: wrap_pointer(s.pointer + d),
            pc: s.pc + 1,
            ..s
        },
        BytecodeElement::Print => MachineState {
            output: s.output.push(s.tape[s.pointer]),
            pc: s.pc + 1,
            ..s
        },
        BytecodeElement::Read => {
            if s.queue.len() > 0 {
                MachineState {
                    tape: s.tape.update(s.pointer, s.queue[0]),
                    queue: s.queue.drop_first(),
                    pc: s.pc + 1,
                    ..s
                }
            } else {
                let j = first_valid(s.lines);
                let line = s.lines[j];
                MachineState {
                    tape: s.tape.update(s.pointer, line[0]),
                    queue: line.drop_first(),
                    lines: s.lines.remove(j),
                    pc: s.pc + 1,
                    ..s
                }
            }
        },
        BytecodeElement::PositiveJump(t) => MachineState {
            pc: if s.tape[s.pointer] == 0 {
                t as int
            } else {
                s.pc + 1
            },
            ..s
        },
        BytecodeElement::NegativeJump(t) => MachineState {
            pc: if s.tape[s.pointer] != 0 {
                t as int
            } else {
                s.pc + 1
            },
            ..s
        },
    }
}

/// The machine after at most `n` steps: it stops early where no step
/// is possible.
pub open spec fn run(code: Seq<BytecodeElement>, s: MachineState, n: nat) -> MachineState
    decreases n,
{
    if n == 0 || !can_step(code, s) {
        s
    } else {
        run(code, step(code, s), (n - 1) as nat)
    }
}

/// The state every execution starts from: an all-zero tape, pointer
/// and program counter at zero, nothing pending, nothing written.
pub open spec fn init_state(lines: Seq<Seq<u8>>) -> MachineState {
    MachineState {
        tape: Seq::new(TAPE_LEN as nat, |i: int| 0u8),
        pointer: 0,
        pc: 0,
        queue: Seq::empty(),
        lines: lines,
        output: Seq::empty(),
    }
}

/// A run of `n + 1` steps is one step after a run of `n` steps,
/// whenever that step is possible.
pub proof fn lemma_run_step(code: Seq<BytecodeElement>, s: MachineState, n: nat)
    requires
        can_step(code, run(code, s, n)),
    ensures
        run(code, s, n + 1) == step(code, run(code, s, n)),
    decreases n,
{
    if n == 0 {
        assert(run(code, s, 0) == s);
        assert(run(code, s, 1) == run(code, step(code, s), 0));
    } else if can_step(code, s) {
        lemma_run_step(code, step(code, s), (n - 1) as nat);
        assert(run(code, s, n) == run(code, step(code, s), (n - 1) as nat));
        assert(run(code, s, n + 1) == run(code, step(code, s), n));
        assert((n - 1) as nat + 1 == n);
    } else {
        assert(run(code, s, n) == s);
    }
}

/// Once no step is possible, the machine stays as it is: more fuel
/// changes nothing.
pub proof fn lemma_run_stops(code: Seq<BytecodeElement>, s: MachineState, m: nat, n: nat)
    requires
        m <= n,
        !can_step(code, run(code, s, m)),
    ensures
        run(code, s, n) == run(code, s, m),
    decreases n,
{
    if m > 0 && can_step(code, s) {
        lemma_run_stops(code, step(code, s), (m - 1) as nat, (n - 1) as nat);
    }
}

/// Identifies the first valid line: below `j` nothing is valid, and
/// `j`, if it is a line at all, is valid.
pub proof fn lemma_first_valid_is(lines: Seq<Seq<u8>>, j: int)
    requires
        0 <= j <= lines.len(),
        forall|k: int| 0 <= k < j ==> !valid_line(#[trigger] lines[k]),
        j < lines.len() ==> valid_line(lines[j]),
    ensures
        first_valid(lines) == j,
    decreases lines.len(),
{
    if lines.len() == 0 {
    } else if j == 0 {
    } else {
        assert(!valid_line(lines[0]));
        let rest = lines.drop_first();
        assert forall|k: int| 0 <= k < j - 1 implies !valid_line(#[trigger] rest[k]) by {
            assert(rest[k] == lines[k + 1]);
        }
        if j - 1 < rest.len() {
            assert(rest[j - 1] == lines[j]);
        }
        lemma_first_valid_is(rest, j - 1);
    }
}

/// Wraparound change of one cell: adds `change`, with 256 wrapping to
/// 0 and -1 wrapping to 255.
pub fn change_value(current: u8, change: i32) -> (r: u8)
    requires
        -1 <= change <= 1,
    ensures
        r as int == wrap_byte(current as int + change as int),
{
    let new: i32 = current as i32 + change;
    if new == 256 {
        0
    } else if new == -1 {
        255
    } else {
        proof {
            assert(wrap_byte(new as int) == new as int);
        }
        new as u8
    }
}

/// Wraparound move of the cell pointer: adds `change`, with 30000
/// wrapping to 0 and -1 wrapping to 29999.
pub fn move_pointer(current: usize, change: i32) -> (r: usize)
    requires
        current < 30000,
        -1 <= change <= 1,
    ensures
        r as int == wrap_pointer(current as int + change as int),
        r < 30000,
{
    let new: i32 = current as i32 + change;
    if new == 30000 {
        0
    } else if new == -1 {
        29999
    } else {
        proof {
            assert(wrap_pointer(new as int) == new as int);
        }
        new as usize
    }
}

/// Next program counter at a `PositiveJump`: the target when the cell
/// is zero, the following instruction otherwise.
pub fn positive_jump(value: u8, position: usize, destination: usize) -> (r: usize)
    requires
        position < usize::MAX,
    ensures
        r == if value == 0 {
            destination
        } else {
            (position + 1) as usize
        },
{
    match value {
        0 => destination,
        _ => position + 1,
    }
}

/// Next program counter at a `NegativeJump`: the target when the cell
/// is nonzero, the following instruction otherwise.
pub fn negative_jump(value: u8, position: usize, destination: usize) -> (r: usize)
    requires
        position < usize::MAX,
    ensures
        r == if value == 0 {
            (position + 1) as usize
        } else {
            destination
        },
{
    match value {
        0 => position + 1,
        _ => destination,
    }
}

/// Whether every byte of the line is in the single-byte range.
pub fn line_is_valid(line: &Vec<u8>) -> (r: bool)
    ensures
        r == valid_line(line@),
{
    let n = line.len();
    let mut i: usize = 0;
    while i < n
        invariant
            i <= n,
            n == line@.len(),
            forall|k: int| 0 <= k < i ==> (#[trigger] line@[k]) < 128,
        decreases n - i,
    {
        if line[i] >= 128 {
            return false;
        }
        i = i + 1;
    }
    true
}

/// Index of the first line that may be enqueued, or the number of
/// lines if there is none.
#[verifier::loop_isolation(false)]
fn next_line_index(lines: &Vec<Vec<u8>>) -> (r: usize)
    ensures
        r as int == first_valid(lines.deep_view()),
        r <= lines@.len(),
{
    let nl = lines.len();
    let mut fi: usize = 0;
    let mut found = false;
    while fi < nl && !found
        invariant
            fi <= nl,
            forall|k: int| 0 <= k < fi ==> !valid_line(#[trigger] lines.deep_view()[k]),
            found ==> fi < nl && valid_line(lines.deep_view()[fi as int]),
        decreases
                nl - fi,
                (if found {
                    0int
                } else {
                    1int
                }),
    {
        proof {
            assert(lines.deep_view()[fi as int] =~= lines@[fi as int]@);
        }
        if line_is_valid(&lines[fi]) {
            found = true;
        } else {
            fi = fi + 1;
        }
    }
    proof {
        if found {
            lemma_first_valid_is(lines.deep_view(), fi as int);
        } else {
            lemma_first_valid_is(lines.deep_view(), nl as int);
        }
    }
    fi
}

/// How an execution ended within its fuel.
#[derive(Clone, Copy, Debug, PartialEq, Eq, Structural)]
pub enum RunStatus {
    /// The program counter ran past the end of the code.
    Halted,
    /// A `Read` stood at the front with no input byte left to give.
    Starved,
    /// The fuel ran out with the machine still able to step.
    OutOfFuel,
}

/// What an execution produced and how it ended.
pub struct RunResult {
    pub output: Vec<u8>,
    pub status: RunStatus,
}

/// Runs the bytecode from the initial state against the given input
/// lines, taking at most `fuel` steps.  The output is exactly what the
/// small-step semantics wrote by then, and the status says how the run
/// ended.  A guest program free of infinite loops halts unchanged under
/// any fuel large enough; one that loops forever is reported as out of
/// fuel, never falsely as halted.
#[verifier::loop_isolation(false)]
pub fn interpret(bytecode: Vec<BytecodeElement>, input_lines: Vec<Vec<u8>>, fuel: u64) -> (r:
    RunResult)
    requires
        code_ok(bytecode@),
    ensures
        ({
            let f = run(bytecode@, init_state(input_lines.deep_view()), fuel as nat);
            &&& r.output@ == f.output
            &&& (r.status is Halted <==> !can_fetch(bytecode@, f))
            &&& (r.status is Starved <==> input_stuck(bytecode@, f))
            &&& (r.status is OutOfFuel <==> can_step(bytecode@, f))
        }),
{
    let ghost lines0 = input_lines.deep_view();
    let ghost init = init_state(lines0);
    let mut lines = input_lines;
    let mut tape: Vec<u8> = Vec::new();
    let mut z: usize = 0;
    while z < TAPE_LEN
        invariant
            z <= TAPE_LEN,
            tape@.len() == z,
            forall|k: int| 0 <= k < z ==> (#[trigger] tape@[k]) == 0u8,
        decreases TAPE_LEN - z,
    {
        tape.push(0u8);
        z = z + 1;
    }
    proof {
        assert(tape@ =~= init.tape);
    }
    let mut pointer: usize = 0;
    let mut pc: usize = 0;
    let mut queue: Vec<u8> = Vec::new();
    let mut output: Vec<u8> = Vec::new();
    let mut starved = false;
    let mut used: u64 = 0;
    let n = bytecode.len();
    proof {
        assert(abs_state(tape@, pointer as int, pc as int, queue@, lines.deep_view(), output@)
            =~= run(bytecode@, init, used as nat));
    }
    while pc < n && !starved && used < fuel
        invariant
            n == bytecode@.len(),
            tape@.len() == 30000,
            pointer < 30000,
            used <= fuel,
            abs_state(tape@, pointer as int, pc as int, queue@, lines.deep_view(), output@) == run(
                bytecode@,
                init,
                used as nat,
            ),
            starved ==> input_stuck(
                bytecode@,
                abs_state(tape@, pointer as int, pc as int, queue@, lines.deep_view(), output@),
            ),
        decreases
                fuel - used,
                (if starved {
                    0int
                } else {
                    1int
                }),
    {
        let ghost pre = abs_state(
            tape@,
            pointer as int,
            pc as int,
            queue@,
            lines.deep_view(),
            output@,
        );
        let instr = bytecode[pc];
        match instr {
            BytecodeElement::ChangeValue(d) => {
                let v = change_value(tape[pointer], d);
                tape[pointer] = v;
                pc = pc + 1;
                proof {
                    lemma_run_step(bytecode@, init, used as nat);
                    assert(abs_state(
                        tape@,
                        pointer as int,
                        pc as int,
                        queue@,
                        lines.deep_view(),
                        output@,
                    ) =~= step(bytecode@, pre));
                }
                used = used + 1;
            },
            BytecodeElement::MovePointer(d) => {
                pointer = move_pointer(pointer, d);
                pc = pc + 1;
                proof {
                    lemma_run_step(bytecode@, init, used as nat);
                    assert(abs_state(
                        tape@,
                        pointer as int,
                        pc as int,
                        queue@,
                        lines.deep_view(),
                        output@,
                    ) =~= step(bytecode@, pre));
                }
                used = used + 1;
            },
            BytecodeElement::Print => {
                output.push(tape[pointer]);
                pc = pc + 1;
                proof {
                    lemma_run_step(bytecode@, init, used as nat);
                    assert(abs_state(
                        tape@,
                        pointer as int,
                        pc as int,
                        queue@,
                        lines.deep_view(),
                        output@,
                    ) =~= step(bytecode@, pre));
                }
                used = used + 1;
            },
            BytecodeElement::PositiveJump(t) => {
                pc = positive_jump(tape[pointer], pc, t);
                proof {
                    lemma_run_step(bytecode@, init, used as nat);
                    assert(abs_state(
                        tape@,
                        pointer as int,
                        pc as int,
                        queue@,
                        lines.deep_view(),
                        output@,
                    ) =~= step(bytecode@, pre));
                }
                used = used + 1;
            },
            BytecodeElement::NegativeJump(t) => {
                pc = negative_jump(tape[pointer], pc, t);
                proof {
                    lemma_run_step(bytecode@, init, used as nat);
                    assert(abs_state(
                        tape@,
                        pointer as int,
                        pc as int,
                        queue@,
                        lines.deep_view(),
                        output@,
                    ) =~= step(bytecode@, pre));
                }
                used = used + 1;
            },
            BytecodeElement::Read => {
                if queue.is_empty() {
                    let fi = next_line_index(&lines);
                    if fi == lines.len() {
                        starved = true;
                    } else if lines[fi].len() == 0 {
                        proof {
                            assert(lines.deep_view()[fi as int] =~= lines@[fi as int]@);
                        }
                        starved = true;
                    } else {
                        proof {
                            assert(lines.deep_view()[fi as int] =~= lines@[fi as int]@);
                        }
                        let ghost dv = lines.deep_view();
                        let mut line = lines.remove(fi);
                        proof {
                            assert(lines.deep_view() =~= dv.remove(fi as int));
                        }
                        let b = line.remove(0);
                        tape[pointer] = b;
                        queue = line;
                        pc = pc + 1;
                        proof {
                            lemma_run_step(bytecode@, init, used as nat);
                            assert(queue@ =~= dv[fi as int].drop_first());
                            assert(abs_state(
                                tape@,
                                pointer as int,
                                pc as int,
                                queue@,
                                lines.deep_view(),
                                output@,
                            ) =~= step(bytecode@, pre));
                        }
                        used = used + 1;
                    }
                } else {
                    let b = queue.remove(0);
                    tape[pointer] = b;
                    pc = pc + 1;
                    proof {
                        lemma_run_step(bytecode@, init, used as nat);
                        assert(queue@ =~= pre.queue.drop_first());
                        assert(abs_state(
                            tape@,
                            pointer as int,
                            pc as int,
                            queue@,
                            lines.deep_view(),
                            output@,
                        ) =~= step(bytecode@, pre));
                    }
                    used = used + 1;
                }
            },
        }
    }
    let status: RunStatus;
    if pc >= n {
        proof {
            lemma_run_stops(bytecode@, init, used as nat, fuel as nat);
        }
        status = RunStatus::Halted;
    } else if starved {
        proof {
            lemma_run_stops(bytecode@, init, used as nat, fuel as nat);
        }
        status = RunStatus::Starved;
    } else {
        let mut blocked = false;
        let instr = bytecode[pc];
        match instr {
            BytecodeElement::Read => {
                if queue.is_empty() {
                    let fi = next_line_index(&lines);
                    if fi == lines.len() {
                        blocked = true;
                    } else if lines[fi].len() == 0 {
                        proof {
                            assert(lines.deep_view()[fi as int] =~= lines@[fi as int]@);
                        }
                        blocked = true;
                    } else {
                        proof {
                            assert(lines.deep_view()[fi as int] =~= lines@[fi as int]@);
                        }
                    }
                }
            },
            _ => {},
        }
        status = if blocked {
            RunStatus::Starved
        } else {
            RunStatus::OutOfFuel
        };
    }
    RunResult { output, status }
}

} // verus!
