//! The meaning of a tree: what its execution does to the tape, the input
//! and the output, stated by recursion over the tree.
//!
//! A loop may run forever, so the recursion carries a bound on the number of
//! iterations that follow one another or lie within one another. The
//! meaning of a program is what [`eval_seq`] gives for every bound that is
//! large enough.

use crate::ast::Node;
use crate::error::BFEvalError;
use crate::optimizer::{absorbs, bumped, fold_step, optimize_spec};
use crate::tape::Cell;
use vstd::prelude::*;

verus! {

/// What an execution acts on: the tape, the input still to be read, and the
/// output written so far.
pub struct World {
    pub cells: Seq<u32>,
    pub pointer: nat,
    pub input: Seq<u8>,
    pub output: Seq<u8>,
}

impl World {
    /// Whether the pointer stands on a cell.
    pub open spec fn in_range(self) -> bool {
        self.pointer < self.cells.len()
    }

    /// The cell at the pointer.
    pub open spec fn cell(self) -> u32 {
        self.cells[self.pointer as int]
    }

    /// The world with the cell at the pointer set to `value`.
    pub open spec fn with_cell(self, value: u32) -> World {
        World { cells: self.cells.update(self.pointer as int, value), ..self }
    }

    /// The fault of an access to a cell while the pointer stands on none.
    pub open spec fn out_of_range(self) -> Eval {
        Eval::Fault(BFEvalError::OutOfRangeAccess(self.pointer as usize))
    }
}

/// What evaluating a tree gives.
pub enum Eval {
    /// The tree was executed to its end, and left this world.
    Done(World),
    /// The execution was aborted by this fault.
    Fault(BFEvalError),
    /// The bound on loop iterations was reached.
    OutOfFuel,
}

/// What executing one node does to the world `w`.
///
/// A loop examines the cell at the pointer before every iteration: while it
/// is not zero the whole body is executed, and then the cell is examined
/// again. Each iteration uses up one unit of `fuel`, also for what runs
/// inside it.
pub open spec fn eval_node(node: Node, w: World, fuel: nat) -> Eval
    decreases fuel, node,
{
    match node {
        Node::MoveForward(n) => if w.pointer + n > usize::MAX {
            Eval::Fault(BFEvalError::PointerOverflow)
        } else {
            Eval::Done(World { pointer: (w.pointer + n) as nat, ..w })
        },
        Node::MoveBack(n) => if n > w.pointer {
            Eval::Fault(BFEvalError::PointerOverflow)
        } else {
            Eval::Done(World { pointer: (w.pointer - n) as nat, ..w })
        },
        Node::IncValue(n) => if !w.in_range() {
            w.out_of_range()
        } else {
            Eval::Done(w.with_cell(w.cell().add_spec(n)))
        },
        Node::DecValue(n) => if !w.in_range() {
            w.out_of_range()
        } else {
            Eval::Done(w.with_cell(w.cell().sub_spec(n)))
        },
        Node::OutputValue => if !w.in_range() {
            w.out_of_range()
        } else {
            Eval::Done(World { output: w.output.push((w.cell() % 256) as u8), ..w })
        },
        Node::InputValue => if w.input.len() == 0 {
            Eval::Fault(BFEvalError::EndOfInput)
        } else if !w.in_range() {
            w.out_of_range()
        } else {
            Eval::Done(World { input: w.input.skip(1), ..w.with_cell(w.input[0] as u32) })
        },
        Node::Loop(body) => if !w.in_range() {
            w.out_of_range()
        } else if w.cell() == 0 {
            Eval::Done(w)
        } else if fuel == 0 {
            Eval::OutOfFuel
        } else {
            match eval_seq(body, w, (fuel - 1) as nat) {
                Eval::Done(after) => eval_node(node, after, (fuel - 1) as nat),
                stopped => stopped,
            }
        },
    }
}

/// What executing a sequence of nodes does to the world `w`: the nodes one
/// after the other, up to the first that does not end.
pub open spec fn eval_seq(nodes: Seq<Node>, w: World, fuel: nat) -> Eval
    decreases fuel, nodes,
{
    if nodes.len() == 0 {
        Eval::Done(w)
    } else {
        match eval_seq(nodes.drop_last(), w, fuel) {
            Eval::Done(after) => eval_node(nodes.last(), after, fuel),
            stopped => stopped,
        }
    }
}

/// Adding `n` and then 1 to a cell is adding `n + 1`.
proof fn lemma_add_twice(value: u32, n: u32)
    requires
        n < u32::MAX,
    ensures
        value.add_spec(n).add_spec(1) == value.add_spec((n + 1) as u32),
{
    let sum = value + n;
    if sum < 0x1_0000_0000 {
        assert(sum % 0x1_0000_0000 == sum);
    } else {
        assert(sum % 0x1_0000_0000 == sum - 0x1_0000_0000);
    }
}

/// Subtracting `n` and then 1 from a cell is subtracting `n + 1`.
proof fn lemma_sub_twice(value: u32, n: u32)
    requires
        n < u32::MAX,
    ensures
        value.sub_spec(n).sub_spec(1) == value.sub_spec((n + 1) as u32),
{
    let difference = value - n;
    if difference >= 0 {
        assert(difference % 0x1_0000_0000 == difference);
    } else {
        assert(difference % 0x1_0000_0000 == difference + 0x1_0000_0000);
    }
}

/// Setting a cell twice is setting it to the second value.
proof fn lemma_with_cell_twice(w: World, first: u32, second: u32)
    requires
        w.in_range(),
    ensures
        w.with_cell(first).with_cell(second) == w.with_cell(second),
        w.with_cell(first).cell() == first,
        w.with_cell(first).in_range(),
{
    assert(w.with_cell(first).with_cell(second).cells =~= w.with_cell(second).cells);
}

/// A node that absorbed a unit step does what the node and the step do one
/// after the other.
pub proof fn lemma_eval_bumped(top: Node, incoming: Node, w: World, fuel: nat)
    requires
        absorbs(top, incoming),
    ensures
        eval_node(bumped(top), w, fuel) == match eval_node(top, w, fuel) {
            Eval::Done(after) => eval_node(incoming, after, fuel),
            stopped => stopped,
        },
{
    match top {
        Node::IncValue(n) => {
            assert(incoming == Node::IncValue(1));
            if w.in_range() {
                lemma_add_twice(w.cell(), n);
                lemma_with_cell_twice(w, w.cell().add_spec(n), w.cell().add_spec((n + 1) as u32));
            }
        },
        Node::DecValue(n) => {
            assert(incoming == Node::DecValue(1));
            if w.in_range() {
                lemma_sub_twice(w.cell(), n);
                lemma_with_cell_twice(w, w.cell().sub_spec(n), w.cell().sub_spec((n + 1) as u32));
            }
        },
        Node::MoveForward(n) => {
            assert(incoming == Node::MoveForward(1));
        },
        Node::MoveBack(n) => {
            assert(incoming == Node::MoveBack(1));
        },
        _ => {},
    }
}

/// A loop with an optimized body does what the loop does.
pub proof fn lemma_eval_optimized_loop(body: Seq<Node>, w: World, fuel: nat)
    ensures
        eval_node(Node::Loop(optimize_spec(body)), w, fuel) == eval_node(Node::Loop(body), w, fuel),
    decreases fuel, body, 0nat,
{
    if w.in_range() && w.cell() != 0 && fuel > 0 {
        lemma_eval_optimized(body, w, (fuel - 1) as nat);
        match eval_seq(body, w, (fuel - 1) as nat) {
            Eval::Done(after) => {
                lemma_eval_optimized_loop(body, after, (fuel - 1) as nat);
            },
            _ => {},
        }
    }
}

/// Optimizing keeps the meaning: the optimized tree does to every world,
/// under every bound, what the tree does.
pub proof fn lemma_eval_optimized(nodes: Seq<Node>, w: World, fuel: nat)
    ensures
        eval_seq(optimize_spec(nodes), w, fuel) == eval_seq(nodes, w, fuel),
    decreases fuel, nodes, 1nat,
{
    if nodes.len() > 0 {
        let rest = nodes.drop_last();
        let last = nodes.last();
        let folded = optimize_spec(rest);
        let result = optimize_spec(nodes);
        lemma_eval_optimized(rest, w, fuel);
        assert(result == fold_step(folded, last));
        match last {
            Node::Loop(body) => {
                let inner = Node::Loop(optimize_spec(body));
                assert(result == folded.push(inner));
                assert(result.drop_last() == folded);
                match eval_seq(folded, w, fuel) {
                    Eval::Done(after) => {
                        lemma_eval_optimized_loop(body, after, fuel);
                    },
                    _ => {},
                }
            },
            _ => {
                if folded.len() > 0 && absorbs(folded.last(), last) {
                    let top = folded.last();
                    let front = folded.drop_last();
                    assert(result == front.push(bumped(top)));
                    assert(result.drop_last() == front);
                    match eval_seq(front, w, fuel) {
                        Eval::Done(after) => {
                            lemma_eval_bumped(top, last, after, fuel);
                        },
                        _ => {},
                    }
                } else {
                    assert(result == folded.push(last));
                    assert(result.drop_last() == folded);
                }
            },
        }
    }
}

} // verus!
