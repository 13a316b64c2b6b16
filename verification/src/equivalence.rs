//! The machine agrees with the meaning of the tree: what it does step by
//! step is what [`eval_seq`] says of the whole program.

use crate::ast::Node;
use crate::error::BFEvalError;
use crate::interpreter::{lemma_limit_monotone, run_from, run_spec, Outcome};
use crate::machine::{Action, Config, Level, Transition, TAPE_LENGTH};
use crate::optimizer::{absorbs, bumped, fold_step, optimize_spec};
use crate::semantics::{eval_node, eval_seq, lemma_eval_bumped, lemma_eval_optimized, Eval, World};
use crate::tape::Cell;
use vstd::prelude::*;

verus! {

/// The world in which an execution on a fresh tape starts.
pub open spec fn fresh(input: Seq<u8>) -> World {
    World {
        cells: Seq::new(TAPE_LENGTH as nat, |i: int| 0u32),
        pointer: 0,
        input,
        output: Seq::empty(),
    }
}

/// The number of steps that the machine takes for one node: up to the end
/// of the node, or up to the step that faults or finds the bound reached.
pub open spec fn cost_node(node: Node, w: World, fuel: nat) -> nat
    decreases fuel, node,
{
    match node {
        Node::Loop(body) => if !w.in_range() {
            0
        } else if w.cell() == 0 {
            1
        } else if fuel == 0 {
            0
        } else {
            match eval_seq(body, w, (fuel - 1) as nat) {
                Eval::Done(after) => 2 + cost_seq(body, w, (fuel - 1) as nat) + cost_node(
                    node,
                    after,
                    (fuel - 1) as nat,
                ),
                _ => 1 + cost_seq(body, w, (fuel - 1) as nat),
            }
        },
        _ => if eval_node(node, w, fuel) is Done {
            1
        } else {
            0
        },
    }
}

/// The number of steps that the machine takes for a sequence of nodes.
pub open spec fn cost_seq(nodes: Seq<Node>, w: World, fuel: nat) -> nat
    decreases fuel, nodes,
{
    if nodes.len() == 0 {
        0
    } else {
        match eval_seq(nodes.drop_last(), w, fuel) {
            Eval::Done(after) => cost_seq(nodes.drop_last(), w, fuel) + cost_node(
                nodes.last(),
                after,
                fuel,
            ),
            _ => cost_seq(nodes.drop_last(), w, fuel),
        }
    }
}

/// The state of a machine that stands at index `next` of `block`, inside
/// the levels `below`, on the tape of `w`.
pub open spec fn at(below: Seq<Level>, block: Seq<Node>, next: nat, w: World) -> Config {
    Config { cells: w.cells, pointer: w.pointer, levels: below.push(Level { block, next }) }
}

/// The bounded execution from a state in a world.
pub open spec fn runs(c: Config, w: World, limit: nat) -> Outcome {
    run_from(c, w.input, w.output, limit)
}

/// Whether the machine, started in state `c` and world `w`, does within
/// `limit` steps what an evaluation `r` of cost `k` says: it is still
/// running before `k` steps, and after `k` steps it stands in `target` in
/// the world that `r` gives, or faults as `r` does.
pub open spec fn tracks(c: Config, w: World, r: Eval, k: nat, target: Config, limit: nat) -> bool {
    &&& limit < k ==> runs(c, w, limit) == Outcome::Faulted(BFEvalError::StepLimit)
    &&& match r {
        Eval::Done(after) => limit >= k ==> runs(c, w, limit) == runs(
            target,
            after,
            (limit - k) as nat,
        ),
        Eval::Fault(error) => {
            &&& limit == k ==> runs(c, w, limit) == Outcome::Faulted(BFEvalError::StepLimit)
            &&& limit > k ==> runs(c, w, limit) == Outcome::Faulted(error)
        },
        Eval::OutOfFuel => limit == k ==> runs(c, w, limit) == Outcome::Faulted(
            BFEvalError::StepLimit,
        ),
    }
}

/// The evaluation `first`, and then `second` where `first` ended.
pub open spec fn and_then(first: Eval, second: Eval) -> Eval {
    match first {
        Eval::Done(_) => second,
        stopped => stopped,
    }
}

/// A machine that takes one silent step and then tracks an evaluation
/// tracks it from the start, at one step more.
proof fn lemma_tracks_after_step(
    c: Config,
    next: Config,
    w: World,
    r: Eval,
    k: nat,
    target: Config,
    limit: nat,
)
    requires
        c.step() == Transition::Next(next, Action::Continue),
        limit > 0 ==> tracks(next, w, r, k, target, (limit - 1) as nat),
    ensures
        tracks(c, w, r, k + 1, target, limit),
{
    if limit > 0 {
        assert(runs(c, w, limit) == runs(next, w, (limit - 1) as nat));
    }
}

/// A machine that tracks one evaluation up to a state, and from that state
/// another, tracks the two one after the other.
proof fn lemma_tracks_both(
    c: Config,
    w: World,
    first: Eval,
    k1: nat,
    mid: Config,
    second: Eval,
    k2: nat,
    target: Config,
    limit: nat,
)
    requires
        tracks(c, w, first, k1, mid, limit),
        first matches Eval::Done(after) ==> limit >= k1 ==> tracks(
            mid,
            after,
            second,
            k2,
            target,
            (limit - k1) as nat,
        ),
    ensures
        tracks(
            c,
            w,
            and_then(first, second),
            (if first is Done {
                k1 + k2
            } else {
                k1
            }),
            target,
            limit,
        ),
{
}

/// What the state `at(..)` holds.
proof fn lemma_at(below: Seq<Level>, block: Seq<Node>, next: nat, w: World)
    ensures
        at(below, block, next, w).top() == (Level { block, next }),
        at(below, block, next, w).levels.len() == below.len() + 1,
        at(below, block, next, w).levels.drop_last() == below,
        at(below, block, next, w).advanced() == at(below, block, next + 1, w),
        at(below, block, next, w).in_range() == w.in_range(),
        w.in_range() ==> at(below, block, next, w).cell() == w.cell(),
        forall|value: u32|
            #![trigger w.with_cell(value)]
            at(below, block, next, w).advanced().with_cell(value) == at(
                below,
                block,
                next + 1,
                w.with_cell(value),
            ),
{
    let c = at(below, block, next, w);
    assert(c.levels.drop_last() =~= below);
    assert(c.advanced().levels =~= at(below, block, next + 1, w).levels);
}

/// An evaluation never faults with `StepLimit`, and where it reaches its
/// bound the machine has taken at least as many steps as the bound.
pub proof fn lemma_stopped_node(node: Node, w: World, fuel: nat)
    ensures
        eval_node(node, w, fuel) != Eval::Fault(BFEvalError::StepLimit),
        eval_node(node, w, fuel) is OutOfFuel ==> cost_node(node, w, fuel) >= fuel,
    decreases fuel, node, 0nat,
{
    match node {
        Node::Loop(body) => {
            if w.in_range() && w.cell() != 0 && fuel > 0 {
                lemma_stopped_seq(body, w, (fuel - 1) as nat);
                match eval_seq(body, w, (fuel - 1) as nat) {
                    Eval::Done(after) => {
                        lemma_stopped_node(node, after, (fuel - 1) as nat);
                    },
                    _ => {},
                }
            }
        },
        _ => {},
    }
}

/// The same of a sequence of nodes.
pub proof fn lemma_stopped_seq(nodes: Seq<Node>, w: World, fuel: nat)
    ensures
        eval_seq(nodes, w, fuel) != Eval::Fault(BFEvalError::StepLimit),
        eval_seq(nodes, w, fuel) is OutOfFuel ==> cost_seq(nodes, w, fuel) >= fuel,
    decreases fuel, nodes, 1nat,
{
    if nodes.len() > 0 {
        lemma_stopped_seq(nodes.drop_last(), w, fuel);
        match eval_seq(nodes.drop_last(), w, fuel) {
            Eval::Done(after) => {
                lemma_stopped_node(nodes.last(), after, fuel);
            },
            _ => {},
        }
    }
}

/// The machine tracks the evaluation of a node that is no loop.
proof fn lemma_tracks_simple(
    below: Seq<Level>,
    block: Seq<Node>,
    j: nat,
    w: World,
    fuel: nat,
    limit: nat,
)
    requires
        j < block.len(),
        !(block[j as int] is Loop),
    ensures
        tracks(
            at(below, block, j, w),
            w,
            eval_node(block[j as int], w, fuel),
            cost_node(block[j as int], w, fuel),
            at(below, block, j + 1, eval_node(block[j as int], w, fuel)->Done_0),
            limit,
        ),
{
    let c = at(below, block, j, w);
    let node = block[j as int];
    lemma_at(below, block, j, w);
    assert(c.current() == Some(node));
    if limit > 0 {
        match node {
            Node::MoveForward(n) => {
                if w.pointer + n <= usize::MAX {
                    let after = World { pointer: (w.pointer + n) as nat, ..w };
                    assert(c.step() == Transition::Next(
                        at(below, block, j + 1, after),
                        Action::Continue,
                    ));
                }
            },
            Node::MoveBack(n) => {
                if n <= w.pointer {
                    let after = World { pointer: (w.pointer - n) as nat, ..w };
                    assert(c.step() == Transition::Next(
                        at(below, block, j + 1, after),
                        Action::Continue,
                    ));
                }
            },
            Node::IncValue(n) => {
                if w.in_range() {
                    let after = w.with_cell(w.cell().add_spec(n));
                    assert(c.step() == Transition::Next(
                        at(below, block, j + 1, after),
                        Action::Continue,
                    ));
                }
            },
            Node::DecValue(n) => {
                if w.in_range() {
                    let after = w.with_cell(w.cell().sub_spec(n));
                    assert(c.step() == Transition::Next(
                        at(below, block, j + 1, after),
                        Action::Continue,
                    ));
                }
            },
            Node::OutputValue => {
                if w.in_range() {
                    let byte = (w.cell() % 256) as u8;
                    let after = World { output: w.output.push(byte), ..w };
                    assert(c.step() == Transition::Next(
                        at(below, block, j + 1, after),
                        Action::Output(byte),
                    ));
                }
            },
            Node::InputValue => {
                assert(c.step() == Transition::Next(c, Action::Input));
                if w.input.len() > 0 && w.in_range() {
                    let after = World { input: w.input.skip(1), ..w.with_cell(w.input[0] as u32) };
                    assert(c.feed(w.input[0]) == Transition::Next(
                        at(below, block, j + 1, after),
                        Action::Continue,
                    ));
                }
            },
            Node::Loop(_) => {},
        }
    }
}

/// Entering a loop: the machine steps into the body.
proof fn lemma_enter(below: Seq<Level>, block: Seq<Node>, j: nat, w: World)
    requires
        j < block.len(),
        block[j as int] is Loop,
        w.in_range(),
        w.cell() != 0,
    ensures
        at(below, block, j, w).step() == Transition::Next(
            at(below.push((Level { block, next: j })), block[j as int]->Loop_0, 0, w),
            Action::Continue,
        ),
{
    lemma_at(below, block, j, w);
    assert(at(below, block, j, w).current() == Some(block[j as int]));
}

/// Leaving a loop body: the machine steps back to the loop.
proof fn lemma_leave(below: Seq<Level>, block: Seq<Node>, j: nat, body: Seq<Node>, w: World)
    ensures
        at(below.push((Level { block, next: j })), body, body.len(), w).step() == Transition::Next(
            at(below, block, j, w),
            Action::Continue,
        ),
{
    let inner = below.push(Level { block, next: j });
    lemma_at(inner, body, body.len(), w);
    assert(at(inner, body, body.len(), w).current() is None);
}

/// Passing over a loop, or faulting on it: the machine's step at a loop
/// while the pointer stands on a zero cell or on none.
proof fn lemma_pass(below: Seq<Level>, block: Seq<Node>, j: nat, w: World)
    requires
        j < block.len(),
        block[j as int] is Loop,
    ensures
        !w.in_range() ==> at(below, block, j, w).step() == Transition::Fault(
            BFEvalError::OutOfRangeAccess(w.pointer as usize),
        ),
        w.in_range() && w.cell() == 0 ==> at(below, block, j, w).step() == Transition::Next(
            at(below, block, j + 1, w),
            Action::Continue,
        ),
{
    lemma_at(below, block, j, w);
    assert(at(below, block, j, w).current() == Some(block[j as int]));
}

/// The machine tracks the evaluation of a loop.
proof fn lemma_tracks_loop(
    below: Seq<Level>,
    block: Seq<Node>,
    j: nat,
    w: World,
    fuel: nat,
    limit: nat,
)
    requires
        j < block.len(),
        block[j as int] is Loop,
    ensures
        tracks(
            at(below, block, j, w),
            w,
            eval_node(block[j as int], w, fuel),
            cost_node(block[j as int], w, fuel),
            at(below, block, j + 1, eval_node(block[j as int], w, fuel)->Done_0),
            limit,
        ),
    decreases fuel, j, 0nat,
{
    let c = at(below, block, j, w);
    let node = block[j as int];
    let body = node->Loop_0;
    if !w.in_range() || w.cell() == 0 {
        lemma_pass(below, block, j, w);
    } else if fuel == 0 {
    } else {
        let less = (fuel - 1) as nat;
        let inner = below.push(Level { block, next: j });
        let entered = at(inner, body, 0, w);
        let first = eval_seq(body, w, less);
        let k1 = cost_seq(body, w, less);
        let second = eval_node(node, first->Done_0, less);
        let k2 = cost_node(node, first->Done_0, less);
        let ended = at(inner, body, body.len(), first->Done_0);
        let back = at(below, block, j, first->Done_0);
        let target = at(below, block, j + 1, second->Done_0);
        lemma_enter(below, block, j, w);
        assert(eval_node(node, w, fuel) == and_then(first, second));
        assert(cost_node(node, w, fuel) == 1 + if first is Done {
            k1 + (k2 + 1)
        } else {
            k1
        });
        if limit > 0 {
            assert(body.take(body.len() as int) == body);
            lemma_tracks_seq(inner, body, body.len(), w, less, (limit - 1) as nat);
            if first is Done && limit - 1 >= k1 {
                let rest = (limit - 1 - k1) as nat;
                lemma_leave(below, block, j, body, first->Done_0);
                if rest > 0 {
                    lemma_tracks_loop(below, block, j, first->Done_0, less, (rest - 1) as nat);
                }
                lemma_tracks_after_step(ended, back, first->Done_0, second, k2, target, rest);
            }
            lemma_tracks_both(
                entered,
                w,
                first,
                k1,
                ended,
                second,
                k2 + 1,
                target,
                (limit - 1) as nat,
            );
        }
        lemma_tracks_after_step(
            c,
            entered,
            w,
            and_then(first, second),
            if first is Done {
                k1 + (k2 + 1)
            } else {
                k1
            },
            target,
            limit,
        );
    }
}

/// The machine tracks the evaluation of the first `j` nodes of a block.
proof fn lemma_tracks_seq(
    below: Seq<Level>,
    block: Seq<Node>,
    j: nat,
    w: World,
    fuel: nat,
    limit: nat,
)
    requires
        j <= block.len(),
    ensures
        tracks(
            at(below, block, 0, w),
            w,
            eval_seq(block.take(j as int), w, fuel),
            cost_seq(block.take(j as int), w, fuel),
            at(below, block, j, eval_seq(block.take(j as int), w, fuel)->Done_0),
            limit,
        ),
    decreases fuel, j, 1nat,
{
    let prefix = block.take(j as int);
    if j == 0 {
        assert(prefix.len() == 0);
        assert(eval_seq(prefix, w, fuel) == Eval::Done(w));
        assert(cost_seq(prefix, w, fuel) == 0);
    } else {
        let before = block.take(j - 1);
        let node = block[j - 1];
        assert(prefix.drop_last() == before);
        assert(prefix.last() == node);
        let first = eval_seq(before, w, fuel);
        let k1 = cost_seq(before, w, fuel);
        let second = eval_node(node, first->Done_0, fuel);
        let k2 = cost_node(node, first->Done_0, fuel);
        assert(eval_seq(prefix, w, fuel) == and_then(first, second));
        assert(cost_seq(prefix, w, fuel) == if first is Done {
            k1 + k2
        } else {
            k1
        });
        lemma_tracks_seq(below, block, (j - 1) as nat, w, fuel, limit);
        if first is Done && limit >= k1 {
            if node is Loop {
                lemma_tracks_loop(
                    below,
                    block,
                    (j - 1) as nat,
                    first->Done_0,
                    fuel,
                    (limit - k1) as nat,
                );
            } else {
                lemma_tracks_simple(
                    below,
                    block,
                    (j - 1) as nat,
                    first->Done_0,
                    fuel,
                    (limit - k1) as nat,
                );
            }
        }
        lemma_tracks_both(
            at(below, block, 0, w),
            w,
            first,
            k1,
            at(below, block, (j - 1) as nat, first->Done_0),
            second,
            k2,
            at(below, block, j, second->Done_0),
            limit,
        );
    }
}

/// The machine does what the evaluation says. Where the program, evaluated
/// under the bound `fuel`, ends in a world, the machine halts on that tape
/// with that output; where it faults, the machine faults alike; and where
/// the bound is reached, the machine is still running after `fuel` steps.
pub proof fn lemma_run_follows_eval(program: Seq<Node>, input: Seq<u8>, fuel: nat)
    ensures
        match eval_seq(program, fresh(input), fuel) {
            Eval::Done(after) => run_spec(
                program,
                input,
                cost_seq(program, fresh(input), fuel) + 1,
            ) == Outcome::Halted(
                at(Seq::empty(), program, program.len(), after),
                after.output,
            ),
            Eval::Fault(error) => error != BFEvalError::StepLimit && run_spec(
                program,
                input,
                cost_seq(program, fresh(input), fuel) + 1,
            ) == Outcome::Faulted(error),
            Eval::OutOfFuel => run_spec(program, input, fuel) == Outcome::Faulted(
                BFEvalError::StepLimit,
            ),
        },
{
    let w = fresh(input);
    let k = cost_seq(program, w, fuel);
    assert(program.take(program.len() as int) == program);
    assert(Config::start(program, w.cells, 0).levels =~= at(Seq::empty(), program, 0, w).levels);
    lemma_stopped_seq(program, w, fuel);
    match eval_seq(program, w, fuel) {
        Eval::Done(after) => {
            lemma_tracks_seq(Seq::empty(), program, program.len(), w, fuel, k + 1);
            let ended = at(Seq::empty(), program, program.len(), after);
            lemma_at(Seq::empty(), program, program.len(), after);
            assert(ended.step() == Transition::Next(ended, Action::Halt));
            assert(runs(ended, after, 1) == Outcome::Halted(ended, after.output));
        },
        Eval::Fault(_) => {
            lemma_tracks_seq(Seq::empty(), program, program.len(), w, fuel, k + 1);
        },
        Eval::OutOfFuel => {
            lemma_tracks_seq(Seq::empty(), program, program.len(), w, fuel, fuel);
        },
    }
}

/// The evaluation says what the machine does. Where the machine halts
/// within `limit` steps, the program evaluated under the bound `limit` ends
/// in the world that the machine halted in; where the machine faults, the
/// evaluation gives the same fault.
pub proof fn lemma_eval_follows_run(program: Seq<Node>, input: Seq<u8>, limit: nat)
    ensures
        match run_spec(program, input, limit) {
            Outcome::Halted(end, output) => eval_seq(program, fresh(input), limit) matches Eval::Done(
                after,
            ) && after.cells == end.cells && after.pointer == end.pointer && after.output
                == output,
            Outcome::Faulted(error) => error != BFEvalError::StepLimit ==> eval_seq(
                program,
                fresh(input),
                limit,
            ) == Eval::Fault(error),
        },
{
    let w = fresh(input);
    let k = cost_seq(program, w, limit);
    let start = Config::start(program, w.cells, 0);
    lemma_run_follows_eval(program, input, limit);
    if run_spec(program, input, limit) != Outcome::Faulted(BFEvalError::StepLimit) {
        if k + 1 >= limit {
            lemma_limit_monotone(start, input, Seq::empty(), limit, k + 1);
        } else if !(eval_seq(program, w, limit) is OutOfFuel) {
            lemma_limit_monotone(start, input, Seq::empty(), k + 1, limit);
        }
    }
}

/// A machine that ends or faults within `limit` steps has taken fewer
/// steps than `limit` up to its last one.
pub proof fn lemma_cost_within_limit(program: Seq<Node>, input: Seq<u8>, limit: nat)
    requires
        run_spec(program, input, limit) != Outcome::Faulted(BFEvalError::StepLimit),
    ensures
        !(eval_seq(program, fresh(input), limit) is OutOfFuel),
        cost_seq(program, fresh(input), limit) < limit,
{
    let w = fresh(input);
    assert(program.take(program.len() as int) == program);
    assert(Config::start(program, w.cells, 0).levels =~= at(Seq::empty(), program, 0, w).levels);
    lemma_stopped_seq(program, w, limit);
    lemma_tracks_seq(Seq::empty(), program, program.len(), w, limit, limit);
}

/// A loop with an optimized body takes no more steps than the loop.
proof fn lemma_cost_optimized_loop(body: Seq<Node>, w: World, fuel: nat)
    ensures
        cost_node(Node::Loop(optimize_spec(body)), w, fuel) <= cost_node(
            Node::Loop(body),
            w,
            fuel,
        ),
    decreases fuel, body, 0nat,
{
    if w.in_range() && w.cell() != 0 && fuel > 0 {
        let less = (fuel - 1) as nat;
        lemma_eval_optimized(body, w, less);
        lemma_cost_optimized(body, w, less);
        match eval_seq(body, w, less) {
            Eval::Done(after) => {
                lemma_cost_optimized_loop(body, after, less);
            },
            _ => {},
        }
    }
}

/// The definition of [`cost_seq`] and [`eval_seq`] on a sequence with a
/// last node.
proof fn lemma_unfold_last(front: Seq<Node>, last: Node, w: World, fuel: nat)
    ensures
        eval_seq(front.push(last), w, fuel) == and_then(
            eval_seq(front, w, fuel),
            eval_node(last, eval_seq(front, w, fuel)->Done_0, fuel),
        ),
        cost_seq(front.push(last), w, fuel) == cost_seq(front, w, fuel) + (if eval_seq(
            front,
            w,
            fuel,
        ) is Done {
            cost_node(last, eval_seq(front, w, fuel)->Done_0, fuel)
        } else {
            0
        }),
{
    assert(front.push(last).drop_last() == front);
    assert(front.push(last).last() == last);
}

/// The optimized tree takes no more steps than the tree.
pub proof fn lemma_cost_optimized(nodes: Seq<Node>, w: World, fuel: nat)
    ensures
        cost_seq(optimize_spec(nodes), w, fuel) <= cost_seq(nodes, w, fuel),
    decreases fuel, nodes, 1nat,
{
    if nodes.len() > 0 {
        let rest = nodes.drop_last();
        let last = nodes.last();
        let folded = optimize_spec(rest);
        let result = optimize_spec(nodes);
        lemma_cost_optimized(rest, w, fuel);
        lemma_eval_optimized(rest, w, fuel);
        assert(rest.push(last) == nodes);
        lemma_unfold_last(rest, last, w, fuel);
        assert(result == fold_step(folded, last));
        match last {
            Node::Loop(body) => {
                let inner = Node::Loop(optimize_spec(body));
                assert(result == folded.push(inner));
                lemma_unfold_last(folded, inner, w, fuel);
                match eval_seq(folded, w, fuel) {
                    Eval::Done(after) => {
                        lemma_cost_optimized_loop(body, after, fuel);
                    },
                    _ => {},
                }
            },
            _ => {
                if folded.len() > 0 && absorbs(folded.last(), last) {
                    let top = folded.last();
                    let front = folded.drop_last();
                    assert(result == front.push(bumped(top)));
                    assert(front.push(top) == folded);
                    lemma_unfold_last(front, bumped(top), w, fuel);
                    lemma_unfold_last(front, top, w, fuel);
                    match eval_seq(front, w, fuel) {
                        Eval::Done(after) => {
                            lemma_eval_bumped(top, last, after, fuel);
                            assert(cost_node(bumped(top), after, fuel) <= 1);
                            if eval_node(top, after, fuel) is Done {
                                assert(cost_node(top, after, fuel) == 1);
                            } else {
                                assert(cost_node(bumped(top), after, fuel) == 0);
                            }
                        },
                        _ => {},
                    }
                } else {
                    assert(result == folded.push(last));
                    lemma_unfold_last(folded, last, w, fuel);
                }
            },
        }
    }
}

/// Optimizing keeps what the machine does. Where the program ends within
/// `limit` steps, the optimized program ends within `limit` steps on the
/// same tape, with the same output; where the program faults, the optimized
/// program faults alike.
pub proof fn lemma_optimize_keeps_run(program: Seq<Node>, input: Seq<u8>, limit: nat)
    ensures
        match run_spec(program, input, limit) {
            Outcome::Halted(end, output) => run_spec(
                optimize_spec(program),
                input,
                limit,
            ) matches Outcome::Halted(same, written) && same.cells == end.cells && same.pointer
                == end.pointer && written == output,
            Outcome::Faulted(error) => error != BFEvalError::StepLimit ==> run_spec(
                optimize_spec(program),
                input,
                limit,
            ) == Outcome::Faulted(error),
        },
{
    let w = fresh(input);
    let optimized = optimize_spec(program);
    if run_spec(program, input, limit) != Outcome::Faulted(BFEvalError::StepLimit) {
        lemma_eval_follows_run(program, input, limit);
        lemma_cost_within_limit(program, input, limit);
        lemma_eval_optimized(program, w, limit);
        lemma_cost_optimized(program, w, limit);
        lemma_run_follows_eval(optimized, input, limit);
        let steps = cost_seq(optimized, w, limit) + 1;
        lemma_limit_monotone(
            Config::start(optimized, w.cells, 0),
            input,
            Seq::empty(),
            steps,
            limit,
        );
    }
}

} // verus!
