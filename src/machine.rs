use vstd::prelude::*;

use crate::op::{command_of, commands, Op};
use crate::pairing::{balanced, compiled};

verus! {

/// The tape length used when none is asked for.
pub const DEFAULT_TAPE_LEN: usize = 100;

/// Why a run stopped before the end of its program.
#[derive(Debug, Clone, Copy, PartialEq, Eq, Structural)]
pub enum RuntimeError {
    /// The data pointer would move past the last cell.
    TapeOverflow,
    /// The data pointer would move before the first cell.
    TapeUnderflow,
    /// A loop bracket lacks a jump target inside the program.
    CorruptProgram,
}

/// What one step of the machine did.
#[derive(Debug, Clone, Copy, PartialEq, Eq, Structural)]
pub enum Event {
    /// The instruction pointer is past the end of the program; nothing ran.
    Halted,
    /// One instruction ran and produced no output.
    Ran,
    /// One output instruction ran and produced this byte.
    Emitted(u8),
}

/// The machine as a mathematical value.
pub struct State {
    pub ip: int,
    pub head: int,
    pub tape: Seq<u8>,
}

/// A fresh machine: both pointers at zero, every cell zero.
pub open spec fn initial(tape_len: nat) -> State {
    State { ip: 0, head: 0, tape: Seq::new(tape_len, |i: int| 0u8) }
}

pub open spec fn halted(ops: Seq<Op>, s: State) -> bool {
    s.ip >= ops.len()
}

/// The cell under the data pointer.
pub open spec fn cell(s: State) -> u8 {
    s.tape[s.head]
}

pub open spec fn advance(s: State) -> State {
    State { ip: s.ip + 1, ..s }
}

pub open spec fn write(s: State, v: u8) -> State {
    State { ip: s.ip + 1, tape: s.tape.update(s.head, v), ..s }
}

/// The jump target of a loop bracket, when it lies inside the program.
pub open spec fn jump(ops: Seq<Op>, t: Option<usize>) -> Option<int> {
    match t {
        Some(j) => if j < ops.len() {
            Some(j as int)
        } else {
            None
        },
        None => None,
    }
}

/// The effect of the instruction under the instruction pointer: the next
/// state and the byte emitted, or the error that stops the machine.
pub open spec fn transition(ops: Seq<Op>, s: State) -> Result<(State, Option<u8>), RuntimeError> {
    match ops[s.ip] {
        Op::Right => if s.head + 1 < s.tape.len() {
            Ok((State { ip: s.ip + 1, head: s.head + 1, ..s }, None))
        } else {
            Err(RuntimeError::TapeOverflow)
        },
        Op::Left => if s.head > 0 {
            Ok((State { ip: s.ip + 1, head: s.head - 1, ..s }, None))
        } else {
            Err(RuntimeError::TapeUnderflow)
        },
        Op::Inc => Ok((write(s, ((cell(s) + 1) % 256) as u8), None)),
        Op::Dec => Ok((write(s, ((cell(s) + 255) % 256) as u8), None)),
        Op::Output => Ok((advance(s), Some(cell(s)))),
        Op::IfStart { end } => match jump(ops, end) {
            Some(j) => if cell(s) == 0 {
                Ok((State { ip: j + 1, ..s }, None))
            } else {
                Ok((advance(s), None))
            },
            None => Err(RuntimeError::CorruptProgram),
        },
        Op::IfEnd { start } => match jump(ops, start) {
            Some(j) => if cell(s) != 0 {
                Ok((State { ip: j, ..s }, None))
            } else {
                Ok((advance(s), None))
            },
            None => Err(RuntimeError::CorruptProgram),
        },
    }
}

/// The event that reports an instruction's output.
pub open spec fn event_of(out: Option<u8>) -> Event {
    match out {
        Some(b) => Event::Emitted(b),
        None => Event::Ran,
    }
}

/// Runs at most `fuel` instructions: the bytes emitted, the state reached,
/// and whether the program halted (`Ok(true)`), ran out of fuel (`Ok(false)`)
/// or stopped on an error.
pub open spec fn run_for(ops: Seq<Op>, s: State, fuel: nat) -> (Seq<u8>, State, Result<bool, RuntimeError>)
    decreases fuel,
{
    if halted(ops, s) {
        (Seq::empty(), s, Ok(true))
    } else if fuel == 0 {
        (Seq::empty(), s, Ok(false))
    } else {
        match transition(ops, s) {
            Err(e) => (Seq::empty(), s, Err(e)),
            Ok((next, out)) => {
                let (rest, last, res) = run_for(ops, next, (fuel - 1) as nat);
                let emitted = match out {
                    Some(b) => seq![b],
                    None => Seq::empty(),
                };
                (emitted + rest, last, res)
            },
        }
    }
}

/// A tape of byte cells with a data pointer, and an instruction pointer into a program.
pub struct Machine {
    tape: Vec<u8>,
    head: usize,
    ip: usize,
}

impl View for Machine {
    type V = State;

    closed spec fn view(&self) -> State {
        State { ip: self.ip as int, head: self.head as int, tape: self.tape@ }
    }
}

impl Machine {
    /// The data pointer addresses a cell of the tape.
    pub closed spec fn wf(&self) -> bool {
        self.head < self.tape@.len()
    }

    /// A fresh machine with `tape_len` zeroed cells.
    pub fn new(tape_len: usize) -> (r: Machine)
        requires
            tape_len > 0,
        ensures
            r.wf(),
            r@ == initial(tape_len as nat),
    {
        let mut tape: Vec<u8> = Vec::new();
        let mut n: usize = 0;
        while n < tape_len
            invariant
                n <= tape_len,
                tape@ == Seq::new(n as nat, |i: int| 0u8),
            decreases tape_len - n,
        {
            tape.push(0);
            n = n + 1;
            assert(tape@ =~= Seq::new(n as nat, |i: int| 0u8));
        }
        Machine { tape, head: 0, ip: 0 }
    }

    /// The value of the cell under the data pointer.
    pub fn current_cell(&self) -> (r: u8)
        requires
            self.wf(),
        ensures
            r == cell(self@),
    {
        self.tape[self.head]
    }

    /// The index of the cell under the data pointer.
    pub fn data_pointer(&self) -> (r: usize)
        ensures
            r == self@.head,
    {
        self.head
    }

    /// The index of the next instruction to run.
    pub fn instruction_pointer(&self) -> (r: usize)
        ensures
            r == self@.ip,
    {
        self.ip
    }

    /// Runs one instruction of `ops`. On an error nothing changes.
    pub fn step(&mut self, ops: &Vec<Op>) -> (r: Result<Event, RuntimeError>)
        requires
            old(self).wf(),
        ensures
            final(self).wf(),
            final(self)@.tape.len() == old(self)@.tape.len(),
            halted(ops@, old(self)@) ==> {
                &&& r == Ok::<Event, RuntimeError>(Event::Halted)
                &&& final(self)@ == old(self)@
            },
            !halted(ops@, old(self)@) ==> match transition(ops@, old(self)@) {
                Err(e) => {
                    &&& r == Err::<Event, RuntimeError>(e)
                    &&& final(self)@ == old(self)@
                },
                Ok((next, out)) => {
                    &&& final(self)@ == next
                    &&& r == Ok::<Event, RuntimeError>(event_of(out))
                },
            },
    {
        if self.ip >= ops.len() {
            return Ok(Event::Halted);
        }
        let h = self.head;
        let c = self.tape[h];
        match ops[self.ip] {
            Op::Right => {
                if h < self.tape.len() - 1 {
                    self.head = h + 1;
                    self.ip = self.ip + 1;
                    Ok(Event::Ran)
                } else {
                    Err(RuntimeError::TapeOverflow)
                }
            },
            Op::Left => {
                if h > 0 {
                    self.head = h - 1;
                    self.ip = self.ip + 1;
                    Ok(Event::Ran)
                } else {
                    Err(RuntimeError::TapeUnderflow)
                }
            },
            Op::Inc => {
                let v: u8 = if c == 255 {
                    0
                } else {
                    c + 1
                };
                self.tape.set(h, v);
                self.ip = self.ip + 1;
                Ok(Event::Ran)
            },
            Op::Dec => {
                let v: u8 = if c == 0 {
                    255
                } else {
                    c - 1
                };
                self.tape.set(h, v);
                self.ip = self.ip + 1;
                Ok(Event::Ran)
            },
            Op::Output => {
                self.ip = self.ip + 1;
                Ok(Event::Emitted(c))
            },
            Op::IfStart { end } => {
                if let Some(j) = end {
                    if j < ops.len() {
                        if c == 0 {
                            self.ip = j + 1;
                        } else {
                            self.ip = self.ip + 1;
                        }
                        return Ok(Event::Ran);
                    }
                }
                Err(RuntimeError::CorruptProgram)
            },
            Op::IfEnd { start } => {
                if let Some(j) = start {
                    if j < ops.len() {
                        if c != 0 {
                            self.ip = j;
                        } else {
                            self.ip = self.ip + 1;
                        }
                        return Ok(Event::Ran);
                    }
                }
                Err(RuntimeError::CorruptProgram)
            },
        }
    }

    /// Runs `ops` for at most `fuel` instructions, collecting the bytes it
    /// emits; reports whether the program halted, or the error that stopped it.
    pub fn run(&mut self, ops: &Vec<Op>, fuel: u64) -> (r: (Vec<u8>, Result<bool, RuntimeError>))
        requires
            old(self).wf(),
        ensures
            final(self).wf(),
            (r.0@, final(self)@, r.1) == run_for(ops@, old(self)@, fuel as nat),
    {
        let mut out: Vec<u8> = Vec::new();
        let mut n: u64 = fuel;
        loop
            invariant
                self.wf(),
                ({
                    let (o, st, res) = run_for(ops@, self@, n as nat);
                    (out@ + o, st, res) == run_for(ops@, old(self)@, fuel as nat)
                }),
            decreases n,
        {
            if self.ip >= ops.len() {
                proof {
                    assert(out@ + Seq::<u8>::empty() =~= out@);
                }
                return (out, Ok(true));
            }
            if n == 0 {
                proof {
                    assert(out@ + Seq::<u8>::empty() =~= out@);
                }
                return (out, Ok(false));
            }
            let ghost out0 = out@;
            match self.step(ops) {
                Err(e) => {
                    proof {
                        assert(out@ + Seq::<u8>::empty() =~= out@);
                    }
                    return (out, Err(e));
                },
                Ok(Event::Emitted(b)) => {
                    out.push(b);
                    proof {
                        let rest = run_for(ops@, self@, (n - 1) as nat).0;
                        assert(out0 + (seq![b] + rest) =~= out@ + rest);
                    }
                },
                Ok(_) => {
                    proof {
                        let rest = run_for(ops@, self@, (n - 1) as nat).0;
                        assert(Seq::<u8>::empty() + rest =~= rest);
                    }
                },
            }
            n = n - 1;
        }
    }
}

/// A source text without commands compiles to no instructions, and a fresh
/// machine halts on that at once with no output.
pub proof fn lemma_comment_only(src: Seq<u8>, tape_len: nat, fuel: nat)
    requires
        forall|i: int| 0 <= i < src.len() ==> command_of(#[trigger] src[i]) is None,
    ensures
        commands(src) == Seq::<Op>::empty(),
        balanced(commands(src)),
        forall|ops: Seq<Op>| compiled(commands(src), ops) ==> ops.len() == 0,
        run_for(commands(src), initial(tape_len), fuel) == (
            Seq::<u8>::empty(),
            initial(tape_len),
            Ok::<bool, RuntimeError>(true),
        ),
    decreases src.len(),
{
    if src.len() > 0 {
        let p = src.drop_last();
        assert forall|i: int| 0 <= i < p.len() implies command_of(#[trigger] p[i]) is None by {
            assert(p[i] == src[i]);
        }
        lemma_comment_only(p, tape_len, fuel);
        assert(command_of(src[src.len() - 1]) is None);
    }
}

/// Cells wrap around: decrementing zero gives 255, and incrementing 255 gives zero.
pub proof fn lemma_cell_wraps(ops: Seq<Op>, s: State)
    requires
        0 <= s.ip < ops.len(),
        0 <= s.head < s.tape.len(),
    ensures
        ops[s.ip] == Op::Dec && cell(s) == 0 ==> transition(ops, s) == Ok::<
            (State, Option<u8>),
            RuntimeError,
        >((write(s, 255), None)),
        ops[s.ip] == Op::Inc && cell(s) == 255 ==> transition(ops, s) == Ok::<
            (State, Option<u8>),
            RuntimeError,
        >((write(s, 0), None)),
{
}

} // verus!
