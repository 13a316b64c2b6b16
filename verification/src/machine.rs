//! The interpreter, as a machine that runs one step at a time.
//!
//! A [`Config`] is the mathematical state of an execution: the tape and a
//! stack of the loop bodies that are being executed, innermost last.
//! [`Config::step`] is the transition relation of the language. A
//! [`Machine`] holds a configuration in executable form; whoever drives it
//! performs the input and output that its steps ask for.

use crate::ast::{lemma_nodes_of, nodes_of, Expression, Node};
use crate::error::BFEvalError;
use crate::tape::{Buffer, Cell};
use vstd::prelude::*;

verus! {

/// The number of cells of the tape that an execution starts with.
pub const TAPE_LENGTH: usize = 30000;

/// One nesting level of an execution: a sequence of nodes and the index of
/// the node that runs next, which is the sequence's length once the level is
/// done.
pub struct Level {
    pub block: Seq<Node>,
    pub next: nat,
}

/// The state of an execution.
pub struct Config {
    /// The cells of the tape.
    pub cells: Seq<u32>,
    /// The position of the pointer.
    pub pointer: nat,
    /// The levels that are being executed: the program first, then the body
    /// of each loop that has been entered and not yet left. Never empty.
    pub levels: Seq<Level>,
}

/// What the driver of a machine has to do after a step.
#[derive(Debug, Clone, Copy, PartialEq, Eq, Structural)]
pub enum Action {
    /// Nothing: take the next step.
    Continue,
    /// Write this byte to the output stream and flush it.
    Output(u8),
    /// Read one byte from the input stream and feed it to the machine.
    Input,
    /// Stop: the program has ended.
    Halt,
}

/// What one step leads to.
pub enum Transition {
    /// The next state, and what the driver has to do.
    Next(Config, Action),
    /// A fault, which ends the execution.
    Fault(BFEvalError),
}

impl Config {
    /// The state in which the execution of `program` on the tape `cells`
    /// starts.
    pub open spec fn start(program: Seq<Node>, cells: Seq<u32>, pointer: nat) -> Config {
        Config { cells, pointer, levels: seq![Level { block: program, next: 0 }] }
    }

    /// The program that is being executed.
    pub open spec fn program(self) -> Seq<Node> {
        self.levels[0].block
    }

    /// Whether the state is a position in its program: each level's index is
    /// within its block or at its end, and each level but the innermost
    /// stands on the loop whose body is the next level.
    pub open spec fn wf(self) -> bool {
        &&& self.levels.len() > 0
        &&& forall|k: int|
            0 <= k < self.levels.len() ==> (#[trigger] self.levels[k]).next
                <= self.levels[k].block.len()
        &&& forall|k: int|
            0 <= k < self.levels.len() - 1 ==> {
                let level = #[trigger] self.levels[k];
                level.next < level.block.len() && level.block[level.next as int] == Node::Loop(
                    self.levels[k + 1].block,
                )
            }
    }

    /// The innermost level.
    pub open spec fn top(self) -> Level {
        self.levels.last()
    }

    /// The node that runs next, or `None` at the end of the innermost level.
    pub open spec fn current(self) -> Option<Node> {
        if self.top().next < self.top().block.len() {
            Some(self.top().block[self.top().next as int])
        } else {
            None
        }
    }

    /// Whether the pointer stands on a cell.
    pub open spec fn in_range(self) -> bool {
        self.pointer < self.cells.len()
    }

    /// The cell at the pointer.
    pub open spec fn cell(self) -> u32 {
        self.cells[self.pointer as int]
    }

    /// Whether the machine stands on an `InputValue` and waits for a byte.
    pub open spec fn awaits_input(self) -> bool {
        self.current() == Some(Node::InputValue)
    }

    /// Whether the program has ended.
    pub open spec fn halted(self) -> bool {
        self.levels.len() == 1 && self.current() is None
    }

    /// The state with the innermost level moved on to its next node.
    pub open spec fn advanced(self) -> Config {
        Config {
            levels: self.levels.update(
                self.levels.len() - 1,
                Level { next: (self.top().next + 1) as nat, ..self.top() },
            ),
            ..self
        }
    }

    /// The state with the cell at the pointer set to `value`.
    pub open spec fn with_cell(self, value: u32) -> Config {
        Config { cells: self.cells.update(self.pointer as int, value), ..self }
    }

    /// One step of the execution.
    ///
    /// At the end of a loop body the machine returns to the loop, which is
    /// then examined again; at the end of the program it halts. A move
    /// changes the pointer, and faults where the pointer would pass below
    /// zero or above `usize::MAX`. An increment or decrement changes the cell
    /// at the pointer modulo 2^32. `OutputValue` gives the low 8 bits of the
    /// cell. `InputValue` asks for a byte and leaves the state as it is. A
    /// loop is entered where the cell at the pointer is not zero and passed
    /// over where it is. Every access to a cell faults where the pointer
    /// stands on none.
    pub open spec fn step(self) -> Transition {
        match self.current() {
            None => if self.levels.len() == 1 {
                Transition::Next(self, Action::Halt)
            } else {
                Transition::Next(
                    Config { levels: self.levels.drop_last(), ..self },
                    Action::Continue,
                )
            },
            Some(Node::MoveForward(n)) => if self.pointer + n > usize::MAX {
                Transition::Fault(BFEvalError::PointerOverflow)
            } else {
                Transition::Next(
                    Config { pointer: (self.pointer + n) as nat, ..self.advanced() },
                    Action::Continue,
                )
            },
            Some(Node::MoveBack(n)) => if n > self.pointer {
                Transition::Fault(BFEvalError::PointerOverflow)
            } else {
                Transition::Next(
                    Config { pointer: (self.pointer - n) as nat, ..self.advanced() },
                    Action::Continue,
                )
            },
            Some(Node::IncValue(n)) => if !self.in_range() {
                Transition::Fault(BFEvalError::OutOfRangeAccess(self.pointer as usize))
            } else {
                Transition::Next(
                    self.advanced().with_cell(self.cell().add_spec(n)),
                    Action::Continue,
                )
            },
            Some(Node::DecValue(n)) => if !self.in_range() {
                Transition::Fault(BFEvalError::OutOfRangeAccess(self.pointer as usize))
            } else {
                Transition::Next(
                    self.advanced().with_cell(self.cell().sub_spec(n)),
                    Action::Continue,
                )
            },
            Some(Node::OutputValue) => if !self.in_range() {
                Transition::Fault(BFEvalError::OutOfRangeAccess(self.pointer as usize))
            } else {
                Transition::Next(self.advanced(), Action::Output((self.cell() % 256) as u8))
            },
            Some(Node::InputValue) => Transition::Next(self, Action::Input),
            Some(Node::Loop(body)) => if !self.in_range() {
                Transition::Fault(BFEvalError::OutOfRangeAccess(self.pointer as usize))
            } else if self.cell() != 0 {
                Transition::Next(
                    Config { levels: self.levels.push(Level { block: body, next: 0 }), ..self },
                    Action::Continue,
                )
            } else {
                Transition::Next(self.advanced(), Action::Continue)
            },
        }
    }

    /// The step that completes an `InputValue`: the byte read is written to
    /// the cell at the pointer.
    pub open spec fn feed(self, byte: u8) -> Transition {
        if !self.in_range() {
            Transition::Fault(BFEvalError::OutOfRangeAccess(self.pointer as usize))
        } else {
            Transition::Next(self.advanced().with_cell(byte as u32), Action::Continue)
        }
    }
}

/// The machine halts exactly in the states in which the program has ended,
/// and a halted machine stays as it is.
pub proof fn lemma_halts_when_ended(c: Config)
    ensures
        c.step() matches Transition::Next(_, Action::Halt) <==> c.halted(),
        c.halted() ==> c.step() == Transition::Next(c, Action::Halt),
{
}

/// A step leads from a position in a program to a position in the same
/// program.
pub proof fn lemma_step_keeps_position(c: Config)
    requires
        c.wf(),
    ensures
        c.step() matches Transition::Next(next, _) ==> next.wf() && next.program() == c.program(),
{
    match c.step() {
        Transition::Next(next, _) => {
            assert(next.levels[0] == c.levels[0] || next.levels[0] == Level {
                next: (c.levels[0].next + 1) as nat,
                ..c.levels[0]
            });
        },
        Transition::Fault(_) => {},
    }
}

/// Feeding a byte to a machine that waits for one leads to a position in the
/// same program.
pub proof fn lemma_feed_keeps_position(c: Config, byte: u8)
    requires
        c.wf(),
        c.awaits_input(),
    ensures
        c.feed(byte) matches Transition::Next(next, _) ==> next.wf() && next.program()
            == c.program(),
{
}

/// One nesting level of a running machine.
struct Frame<'a> {
    block: &'a Vec<Expression>,
    next: usize,
}

/// The level that a frame holds.
spec fn level_of(frame: Frame) -> Level {
    Level { block: nodes_of(frame.block@), next: frame.next as nat }
}

/// The levels that a stack of frames holds.
spec fn levels_of(frames: Seq<Frame>) -> Seq<Level> {
    Seq::new(frames.len(), |k: int| level_of(frames[k]))
}

/// A machine that executes a program on a tape of 32-bit cells, one step at
/// a time. Every machine that this module hands out is at a position in its
/// program ([`Config::wf`]), and every step keeps it so.
pub struct Machine<'a> {
    mem: Buffer<u32>,
    frames: Vec<Frame<'a>>,
}

impl<'a> View for Machine<'a> {
    type V = Config;

    closed spec fn view(&self) -> Config {
        Config {
            cells: self.mem.cells(),
            pointer: self.mem.pointer(),
            levels: levels_of(self.frames@),
        }
    }
}

impl<'a> Machine<'a> {
    /// A machine at the start of `program`, with a fresh tape of
    /// [`TAPE_LENGTH`] zeroed cells and the pointer on the first.
    pub fn new(program: &'a Vec<Expression>) -> (machine: Machine<'a>)
        ensures
            machine@ == Config::start(
                nodes_of(program@),
                Seq::new(TAPE_LENGTH as nat, |i: int| 0u32),
                0,
            ),
            machine@.wf(),
    {
        Machine::with_tape(program, Buffer::new(TAPE_LENGTH))
    }

    /// A machine at the start of `program`, on the given tape.
    pub fn with_tape(program: &'a Vec<Expression>, mem: Buffer<u32>) -> (machine: Machine<'a>)
        ensures
            machine@ == Config::start(nodes_of(program@), mem.cells(), mem.pointer()),
            machine@.wf(),
    {
        let mut frames: Vec<Frame<'a>> = Vec::new();
        frames.push(Frame { block: program, next: 0 });
        proof {
            lemma_nodes_of(program@);
            assert(levels_of(frames@) == seq![Level { block: nodes_of(program@), next: 0 }]);
        }
        Machine { mem, frames }
    }

    /// The tape of the machine.
    pub fn tape(&self) -> (mem: &Buffer<u32>)
        ensures
            mem.cells() == self@.cells,
            mem.pointer() == self@.pointer,
    {
        &self.mem
    }

    /// Ends the execution and hands out the tape.
    pub fn into_tape(self) -> (mem: Buffer<u32>)
        ensures
            mem.cells() == self@.cells,
            mem.pointer() == self@.pointer,
    {
        self.mem
    }

    /// Whether the pointer stands on a cell.
    fn in_range(&self) -> (yes: bool)
        ensures
            yes == self@.in_range(),
    {
        self.mem.ptr() < self.mem.buf().len()
    }

    /// Whether the machine stands on an `InputValue` and waits for a byte.
    pub fn awaits_input(&self) -> (yes: bool)
        requires
            self@.wf(),
        ensures
            yes == self@.awaits_input(),
    {
        let depth = self.frames.len();
        let block = self.frames[depth - 1].block;
        let next = self.frames[depth - 1].next;
        proof {
            lemma_nodes_of(block@);
            assert(self@.top() == level_of(self.frames@[depth - 1]));
        }
        if next < block.len() {
            match &block[next] {
                Expression::InputValue => true,
                _ => false,
            }
        } else {
            false
        }
    }

    /// Moves the innermost level on to its next node.
    fn advance(&mut self)
        requires
            old(self)@.wf(),
            old(self)@.current() is Some,
        ensures
            final(self)@ == old(self)@.advanced(),
            final(self)@.wf(),
            final(self).mem == old(self).mem,
    {
        let depth = self.frames.len();
        let block = self.frames[depth - 1].block;
        let next = self.frames[depth - 1].next;
        proof {
            lemma_nodes_of(block@);
            assert(self@.top() == level_of(self.frames@[depth - 1]));
            assert(next < block.len());
            let frames = self.frames@.update(depth - 1, Frame { block, next: (next + 1) as usize });
            assert(levels_of(frames) == self@.advanced().levels);
            assert forall|k: int| 0 <= k < frames.len() implies #[trigger] levels_of(frames)[k]
                == level_of(frames[k]) by {}
        }
        self.frames.set(depth - 1, Frame { block, next: next + 1 });
    }

    /// Takes one step of the execution, and says what the driver has to do
    /// next. A fault leaves the machine as it was.
    pub fn step(&mut self) -> (result: Result<Action, BFEvalError>)
        requires
            old(self)@.wf(),
        ensures
            final(self)@.wf(),
            match old(self)@.step() {
                Transition::Next(next, action) => result == Ok::<Action, BFEvalError>(action)
                    && final(self)@ == next,
                Transition::Fault(error) => result == Err::<Action, BFEvalError>(error) && final(self)@ == old(self)@,
            },
    {
        let depth = self.frames.len();
        let block = self.frames[depth - 1].block;
        let next = self.frames[depth - 1].next;
        proof {
            lemma_nodes_of(block@);
            assert(self@.top() == level_of(self.frames@[depth - 1]));
        }
        if next >= block.len() {
            if depth == 1 {
                return Ok(Action::Halt);
            }
            proof {
                assert(levels_of(self.frames@.drop_last()) == self@.levels.drop_last());
            }
            self.frames.pop();
            return Ok(Action::Continue);
        }
        match &block[next] {
            Expression::MoveForward(n) => {
                if *n > usize::MAX - self.mem.ptr() {
                    return Err(BFEvalError::PointerOverflow);
                }
                self.mem.fwd(*n);
                self.advance();
                Ok(Action::Continue)
            },
            Expression::MoveBack(n) => {
                if *n > self.mem.ptr() {
                    return Err(BFEvalError::PointerOverflow);
                }
                self.mem.bwd(*n);
                self.advance();
                Ok(Action::Continue)
            },
            Expression::IncValue(n) => {
                if !self.in_range() {
                    return Err(BFEvalError::OutOfRangeAccess(self.mem.ptr()));
                }
                self.mem.inc(*n);
                self.advance();
                Ok(Action::Continue)
            },
            Expression::DecValue(n) => {
                if !self.in_range() {
                    return Err(BFEvalError::OutOfRangeAccess(self.mem.ptr()));
                }
                self.mem.dec(*n);
                self.advance();
                Ok(Action::Continue)
            },
            Expression::OutputValue => {
                if !self.in_range() {
                    return Err(BFEvalError::OutOfRangeAccess(self.mem.ptr()));
                }
                let byte = (self.mem.read() % 256) as u8;
                self.advance();
                Ok(Action::Output(byte))
            },
            Expression::InputValue => Ok(Action::Input),
            Expression::Loop(body) => {
                if !self.in_range() {
                    return Err(BFEvalError::OutOfRangeAccess(self.mem.ptr()));
                }
                if self.mem.read() != 0 {
                    proof {
                        lemma_nodes_of(body@);
                        let frames = self.frames@.push(Frame { block: body, next: 0 });
                        assert(levels_of(frames) == self@.levels.push(
                            Level { block: nodes_of(body@), next: 0 },
                        ));
                    }
                    self.frames.push(Frame { block: body, next: 0 });
                } else {
                    self.advance();
                }
                Ok(Action::Continue)
            },
        }
    }

    /// Completes the `InputValue` that the machine waits on: writes `byte` to
    /// the cell at the pointer and moves on. A fault leaves the machine as it
    /// was.
    pub fn feed(&mut self, byte: u8) -> (result: Result<(), BFEvalError>)
        requires
            old(self)@.wf(),
            old(self)@.awaits_input(),
        ensures
            final(self)@.wf(),
            match old(self)@.feed(byte) {
                Transition::Next(next, _) => result is Ok && final(self)@ == next,
                Transition::Fault(error) => result == Err::<(), BFEvalError>(error) && final(self)@ == old(self)@,
            },
    {
        if !self.in_range() {
            return Err(BFEvalError::OutOfRangeAccess(self.mem.ptr()));
        }
        self.mem.write(byte as u32);
        self.advance();
        Ok(())
    }
}

} // verus!
