//! Bounded execution: a machine driven over a given input, for at most a
//! given number of steps.

use crate::ast::{nodes_of, Expression, Node};
use crate::error::BFEvalError;
use crate::machine::{Action, Config, Machine, Transition, TAPE_LENGTH};
use crate::tape::Buffer;
use vstd::prelude::*;

verus! {

/// How a bounded execution ends.
pub enum Outcome {
    /// The program ended in this state, after writing these bytes.
    Halted(Config, Seq<u8>),
    /// The execution was aborted.
    Faulted(BFEvalError),
}

/// The execution from state `c` with `input` still to be read and `output`
/// already written, for at most `limit` steps.
///
/// Each step of the machine counts as one, and so does the step that finds
/// the program ended. A byte that the machine asks for is taken from the
/// front of `input`; where none is left the execution faults with
/// `EndOfInput`. Where `limit` steps did not reach the end of the program
/// the execution faults with `StepLimit`.
pub open spec fn run_from(c: Config, input: Seq<u8>, output: Seq<u8>, limit: nat) -> Outcome
    decreases limit,
{
    if limit == 0 {
        Outcome::Faulted(BFEvalError::StepLimit)
    } else {
        match c.step() {
            Transition::Fault(error) => Outcome::Faulted(error),
            Transition::Next(next, Action::Halt) => Outcome::Halted(next, output),
            Transition::Next(next, Action::Continue) => run_from(
                next,
                input,
                output,
                (limit - 1) as nat,
            ),
            Transition::Next(next, Action::Output(byte)) => run_from(
                next,
                input,
                output.push(byte),
                (limit - 1) as nat,
            ),
            Transition::Next(next, Action::Input) => if input.len() == 0 {
                Outcome::Faulted(BFEvalError::EndOfInput)
            } else {
                match next.feed(input[0]) {
                    Transition::Fault(error) => Outcome::Faulted(error),
                    Transition::Next(fed, _) => run_from(
                        fed,
                        input.skip(1),
                        output,
                        (limit - 1) as nat,
                    ),
                }
            },
        }
    }
}

/// The execution of `program` on a fresh tape of [`TAPE_LENGTH`] zeroed
/// cells, for at most `limit` steps.
pub open spec fn run_spec(program: Seq<Node>, input: Seq<u8>, limit: nat) -> Outcome {
    run_from(
        Config::start(program, Seq::new(TAPE_LENGTH as nat, |i: int| 0u32), 0),
        input,
        Seq::empty(),
        limit,
    )
}

/// A larger budget changes nothing for an execution that ended within a
/// smaller one: how a program ends does not depend on the limit, once the
/// limit is large enough.
pub proof fn lemma_limit_monotone(
    c: Config,
    input: Seq<u8>,
    output: Seq<u8>,
    limit: nat,
    larger: nat,
)
    requires
        limit <= larger,
        run_from(c, input, output, limit) != Outcome::Faulted(BFEvalError::StepLimit),
    ensures
        run_from(c, input, output, larger) == run_from(c, input, output, limit),
    decreases limit,
{
    if limit > 0 {
        match c.step() {
            Transition::Fault(_) => {},
            Transition::Next(next, Action::Halt) => {},
            Transition::Next(next, Action::Continue) => {
                lemma_limit_monotone(next, input, output, (limit - 1) as nat, (larger - 1) as nat);
            },
            Transition::Next(next, Action::Output(byte)) => {
                lemma_limit_monotone(
                    next,
                    input,
                    output.push(byte),
                    (limit - 1) as nat,
                    (larger - 1) as nat,
                );
            },
            Transition::Next(next, Action::Input) => {
                if input.len() > 0 {
                    match next.feed(input[0]) {
                        Transition::Fault(_) => {},
                        Transition::Next(fed, _) => {
                            lemma_limit_monotone(
                                fed,
                                input.skip(1),
                                output,
                                (limit - 1) as nat,
                                (larger - 1) as nat,
                            );
                        },
                    }
                }
            },
        }
    }
}

/// Executes `expressions` on a fresh tape of [`TAPE_LENGTH`] zeroed cells,
/// with `input` as the input stream, for at most `limit` steps. Returns the
/// final tape and the bytes written, or the first fault: `EndOfInput` where
/// the program asks for more bytes than `input` holds, `OutOfRangeAccess`
/// or `PointerOverflow` where the pointer leaves the tape, and `StepLimit`
/// where the program has not ended after `limit` steps.
pub fn run(expressions: &Vec<Expression>, input: &Vec<u8>, limit: u64) -> (result: Result<
    (Buffer<u32>, Vec<u8>),
    BFEvalError,
>)
    ensures
        match run_spec(nodes_of(expressions@), input@, limit as nat) {
            Outcome::Halted(end, written) => result matches Ok((mem, output)) && mem.cells()
                == end.cells && mem.pointer() == end.pointer && output@ == written,
            Outcome::Faulted(error) => result matches Err(e) && e == error,
        },
{
    let mut machine = Machine::new(expressions);
    match do_run(&mut machine, input, limit) {
        Ok(output) => Ok((machine.into_tape(), output)),
        Err(error) => Err(error),
    }
}

/// Drives `machine` over `input` for at most `limit` steps, and returns the
/// bytes written.
fn do_run(machine: &mut Machine, input: &Vec<u8>, limit: u64) -> (result: Result<
    Vec<u8>,
    BFEvalError,
>)
    requires
        old(machine)@.wf(),
    ensures
        match run_from(old(machine)@, input@, Seq::empty(), limit as nat) {
            Outcome::Halted(end, written) => result matches Ok(output) && output@ == written
                && final(machine)@ == end,
            Outcome::Faulted(error) => result matches Err(e) && e == error,
        },
{
    let ghost goal = run_from(machine@, input@, Seq::empty(), limit as nat);
    let mut output: Vec<u8> = Vec::new();
    let mut consumed: usize = 0;
    let mut steps: u64 = 0;
    proof {
        assert(input@.skip(0) == input@);
    }
    while steps < limit
        invariant
            machine@.wf(),
            consumed <= input.len(),
            steps <= limit,
            goal == run_from(old(machine)@, input@, Seq::empty(), limit as nat),
            goal == run_from(machine@, input@.skip(consumed as int), output@, (limit - steps) as nat),
        decreases limit - steps,
    {
        match machine.step() {
            Err(error) => {
                return Err(error);
            },
            Ok(Action::Halt) => {
                return Ok(output);
            },
            Ok(Action::Continue) => {},
            Ok(Action::Output(byte)) => {
                output.push(byte);
            },
            Ok(Action::Input) => {
                if consumed >= input.len() {
                    return Err(BFEvalError::EndOfInput);
                }
                let byte = input[consumed];
                proof {
                    assert(input@.skip(consumed as int)[0] == byte);
                    assert(input@.skip(consumed as int).skip(1) == input@.skip(consumed + 1));
                }
                match machine.feed(byte) {
                    Err(error) => {
                        return Err(error);
                    },
                    Ok(()) => {},
                }
                consumed += 1;
            },
        }
        steps += 1;
    }
    Err(BFEvalError::StepLimit)
}

} // verus!
