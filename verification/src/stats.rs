//! Instruction counts of a tree.

use crate::ast::{lemma_nodes_of_push, node_of, nodes_of, Expression, Node};
use core::ops::Add;
use vstd::prelude::*;
use vstd::std_specs::ops::AddSpecImpl;

verus! {

/// The exact instruction counts of a tree, as natural numbers.
pub struct Tally {
    pub fwd: nat,
    pub bwd: nat,
    pub inc: nat,
    pub dec: nat,
    pub output: nat,
    pub input: nat,
    pub loops: nat,
}

impl Tally {
    /// The tally of the empty tree.
    pub open spec fn zero() -> Tally {
        Tally { fwd: 0, bwd: 0, inc: 0, dec: 0, output: 0, input: 0, loops: 0 }
    }

    /// The pointwise sum of two tallies.
    pub open spec fn plus(self, other: Tally) -> Tally {
        Tally {
            fwd: self.fwd + other.fwd,
            bwd: self.bwd + other.bwd,
            inc: self.inc + other.inc,
            dec: self.dec + other.dec,
            output: self.output + other.output,
            input: self.input + other.input,
            loops: self.loops + other.loops,
        }
    }

    /// The tally that counts `node` alone, whatever its count field and its
    /// body.
    pub open spec fn one(node: Node) -> Tally {
        match node {
            Node::MoveForward(_) => Tally { fwd: 1, ..Tally::zero() },
            Node::MoveBack(_) => Tally { bwd: 1, ..Tally::zero() },
            Node::IncValue(_) => Tally { inc: 1, ..Tally::zero() },
            Node::DecValue(_) => Tally { dec: 1, ..Tally::zero() },
            Node::OutputValue => Tally { output: 1, ..Tally::zero() },
            Node::InputValue => Tally { input: 1, ..Tally::zero() },
            Node::Loop(_) => Tally { loops: 1, ..Tally::zero() },
        }
    }
}

/// The tally of one node: the node itself and, for a loop, all of its body.
pub open spec fn tally_node(node: Node) -> Tally
    decreases node,
{
    match node {
        Node::Loop(body) => Tally::one(node).plus(tally(body)),
        _ => Tally::one(node),
    }
}

/// The tally of a tree: every node at every depth, counted once by kind.
pub open spec fn tally(nodes: Seq<Node>) -> Tally
    decreases nodes,
{
    if nodes.len() == 0 {
        Tally::zero()
    } else {
        tally(nodes.drop_last()).plus(tally_node(nodes.last()))
    }
}

/// The nodes of the top level alone, counted by kind.
pub open spec fn tally_top(nodes: Seq<Node>) -> Tally
    decreases nodes.len(),
{
    if nodes.len() == 0 {
        Tally::zero()
    } else {
        tally_top(nodes.drop_last()).plus(Tally::one(nodes.last()))
    }
}

/// The sum of the tallies of the bodies of the top level's loops.
pub open spec fn tally_bodies(nodes: Seq<Node>) -> Tally
    decreases nodes.len(),
{
    if nodes.len() == 0 {
        Tally::zero()
    } else {
        match nodes.last() {
            Node::Loop(body) => tally_bodies(nodes.drop_last()).plus(tally(body)),
            _ => tally_bodies(nodes.drop_last()),
        }
    }
}

/// The counter that holds `n`: `n` itself, or the largest counter where `n`
/// does not fit.
pub open spec fn cap(n: nat) -> usize {
    if n > usize::MAX {
        usize::MAX
    } else {
        n as usize
    }
}

/// Instruction counts by kind. Each counter holds the exact count, and stays
/// at `usize::MAX` where the count is larger than that.
#[derive(Debug, Clone, Copy, PartialEq, Eq, Structural)]
pub struct Stats {
    pub fwd_count: usize,
    pub bwd_count: usize,
    pub inc_count: usize,
    pub dec_count: usize,
    pub output_count: usize,
    pub input_count: usize,
    pub loop_count: usize,
}

impl Stats {
    /// The counters that hold the tally `t`.
    pub open spec fn of(t: Tally) -> Stats {
        Stats {
            fwd_count: cap(t.fwd),
            bwd_count: cap(t.bwd),
            inc_count: cap(t.inc),
            dec_count: cap(t.dec),
            output_count: cap(t.output),
            input_count: cap(t.input),
            loop_count: cap(t.loops),
        }
    }

    /// The exact counts that the counters hold.
    pub open spec fn tally(self) -> Tally {
        Tally {
            fwd: self.fwd_count as nat,
            bwd: self.bwd_count as nat,
            inc: self.inc_count as nat,
            dec: self.dec_count as nat,
            output: self.output_count as nat,
            input: self.input_count as nat,
            loops: self.loop_count as nat,
        }
    }

    /// The merge of two aggregates: the pointwise sum, each counter capped.
    pub open spec fn merge_spec(self, other: Stats) -> Stats {
        Stats::of(self.tally().plus(other.tally()))
    }

    /// Merges two aggregates into their pointwise sum.
    pub fn merge(self, other: Stats) -> (sum: Stats)
        ensures
            sum == self.merge_spec(other),
    {
        Stats {
            fwd_count: self.fwd_count.saturating_add(other.fwd_count),
            bwd_count: self.bwd_count.saturating_add(other.bwd_count),
            inc_count: self.inc_count.saturating_add(other.inc_count),
            dec_count: self.dec_count.saturating_add(other.dec_count),
            output_count: self.output_count.saturating_add(other.output_count),
            input_count: self.input_count.saturating_add(other.input_count),
            loop_count: self.loop_count.saturating_add(other.loop_count),
        }
    }
}

impl Default for Stats {
    /// All counters at zero.
    fn default() -> (zero: Stats)
        ensures
            zero == Stats::of(Tally::zero()),
    {
        Stats {
            fwd_count: 0,
            bwd_count: 0,
            inc_count: 0,
            dec_count: 0,
            output_count: 0,
            input_count: 0,
            loop_count: 0,
        }
    }
}

impl AddSpecImpl for Stats {
    open spec fn obeys_add_spec() -> bool {
        true
    }

    open spec fn add_req(self, other: Stats) -> bool {
        true
    }

    open spec fn add_spec(self, other: Stats) -> Stats {
        self.merge_spec(other)
    }
}

impl Add for Stats {
    type Output = Stats;

    /// `a + b` is `a.merge(b)`.
    fn add(self, other: Stats) -> (sum: Stats) {
        self.merge(other)
    }
}

/// Capping commutes with addition: the counters of a sum are the merge of the
/// counters of its parts.
pub proof fn lemma_of_plus(a: Tally, b: Tally)
    ensures
        Stats::of(a.plus(b)) == Stats::of(a).merge_spec(Stats::of(b)),
{
}

/// Merging is commutative.
pub proof fn lemma_merge_commutative(a: Stats, b: Stats)
    ensures
        a.merge_spec(b) == b.merge_spec(a),
{
}

/// Merging is associative.
pub proof fn lemma_merge_associative(a: Stats, b: Stats, c: Stats)
    ensures
        a.merge_spec(b).merge_spec(c) == a.merge_spec(b.merge_spec(c)),
{
}

/// The tally of a concatenation is the sum of the tallies of its parts.
pub proof fn lemma_tally_concat(a: Seq<Node>, b: Seq<Node>)
    ensures
        tally(a + b) == tally(a).plus(tally(b)),
    decreases b.len(),
{
    if b.len() == 0 {
        assert(a + b == a);
    } else {
        lemma_tally_concat(a, b.drop_last());
        assert((a + b).drop_last() == a + b.drop_last());
        assert((a + b).last() == b.last());
    }
}

/// The tally of a tree is that of its top level plus those of the bodies of
/// its top-level loops: counting level by level finds every node once.
pub proof fn lemma_tally_by_level(nodes: Seq<Node>)
    ensures
        tally(nodes) == tally_top(nodes).plus(tally_bodies(nodes)),
    decreases nodes.len(),
{
    if nodes.len() > 0 {
        let rest = nodes.drop_last();
        lemma_tally_by_level(rest);
        match nodes.last() {
            Node::Loop(body) => {
                assert(tally_node(nodes.last()) == Tally::one(nodes.last()).plus(tally(body)));
                assert(tally_bodies(nodes) == tally_bodies(rest).plus(tally(body)));
            },
            _ => {
                assert(tally_node(nodes.last()) == Tally::one(nodes.last()));
                assert(tally_bodies(nodes) == tally_bodies(rest));
            },
        }
        assert(tally_top(nodes) == tally_top(rest).plus(Tally::one(nodes.last())));
        assert(tally(nodes) == tally(rest).plus(tally_node(nodes.last())));
    }
}

/// The counters of one expression counted alone.
fn count_one(acc: Stats, expression: &Expression) -> (sum: Stats)
    ensures
        sum == acc.merge_spec(Stats::of(Tally::one(node_of(*expression)))),
{
    let mut sum = acc;
    match expression {
        Expression::MoveForward(_) => {
            sum.fwd_count = sum.fwd_count.saturating_add(1);
        },
        Expression::MoveBack(_) => {
            sum.bwd_count = sum.bwd_count.saturating_add(1);
        },
        Expression::IncValue(_) => {
            sum.inc_count = sum.inc_count.saturating_add(1);
        },
        Expression::DecValue(_) => {
            sum.dec_count = sum.dec_count.saturating_add(1);
        },
        Expression::OutputValue => {
            sum.output_count = sum.output_count.saturating_add(1);
        },
        Expression::InputValue => {
            sum.input_count = sum.input_count.saturating_add(1);
        },
        Expression::Loop(_) => {
            sum.loop_count = sum.loop_count.saturating_add(1);
        },
    }
    sum
}

/// Counts the instructions of a tree by kind, at every depth. A counted node
/// counts once, whatever its count field; a loop counts once, and its body is
/// counted too.
pub fn stats(expressions: &Vec<Expression>) -> (counts: Stats)
    ensures
        counts == Stats::of(tally(nodes_of(expressions@))),
    decreases expressions,
{
    let ghost nodes = nodes_of(expressions@);
    let mut acc = Stats::default();
    let mut i: usize = 0;
    while i < expressions.len()
        invariant
            i <= expressions.len(),
            acc == Stats::of(tally_top(nodes_of(expressions@.take(i as int)))),
        decreases expressions.len() - i,
    {
        proof {
            let seen = expressions@.take(i as int);
            assert(seen.push(expressions@[i as int]) == expressions@.take(i + 1));
            lemma_nodes_of_push(seen, expressions@[i as int]);
            assert(nodes_of(seen).push(node_of(expressions@[i as int])).drop_last() == nodes_of(
                seen,
            ));
        }
        acc = count_one(acc, &expressions[i]);
        i += 1;
    }
    proof {
        assert(expressions@.take(i as int) == expressions@);
    }
    let mut j: usize = 0;
    while j < expressions.len()
        invariant
            j <= expressions.len(),
            nodes == nodes_of(expressions@),
            acc == Stats::of(
                tally_top(nodes).plus(tally_bodies(nodes_of(expressions@.take(j as int)))),
            ),
        decreases expressions.len() - j,
    {
        proof {
            let seen = expressions@.take(j as int);
            assert(seen.push(expressions@[j as int]) == expressions@.take(j + 1));
            lemma_nodes_of_push(seen, expressions@[j as int]);
            assert(nodes_of(seen).push(node_of(expressions@[j as int])).drop_last() == nodes_of(
                seen,
            ));
        }
        match &expressions[j] {
            Expression::Loop(body) => {
                acc = acc.merge(stats(body));
            },
            _ => {},
        }
        j += 1;
    }
    proof {
        assert(expressions@.take(j as int) == expressions@);
        lemma_tally_by_level(nodes);
    }
    acc
}

} // verus!
