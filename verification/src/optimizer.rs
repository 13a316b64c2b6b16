//! The optimizer: run-length folding of unit steps.

use crate::ast::{
    all_positive, all_unit, lemma_nodes_of, lemma_nodes_of_push, node_of, nodes_of, Expression,
    Node,
};
use crate::parser::{lemma_parse_unit, parse_spec};
use crate::token::Token;
use vstd::prelude::*;

verus! {

/// Whether the folded node `last` takes the incoming node into its count:
/// both are counted steps of one kind, the incoming count is exactly 1, and
/// the sum still fits the count's type.
pub open spec fn absorbs(last: Node, incoming: Node) -> bool {
    last.same_kind(incoming) && incoming.count() == 1 && !last.is_saturated()
}

/// The counted step `node` with its count raised by 1.
pub open spec fn bumped(node: Node) -> Node {
    match node {
        Node::IncValue(n) => Node::IncValue((n + 1) as u32),
        Node::DecValue(n) => Node::DecValue((n + 1) as u32),
        Node::MoveForward(n) => Node::MoveForward((n + 1) as usize),
        Node::MoveBack(n) => Node::MoveBack((n + 1) as usize),
        _ => node,
    }
}

/// The folded sequence `folded` after the next source node. A loop is
/// appended with its body optimized. Any other node raises the count of the
/// last folded node where that node absorbs it, and is appended unchanged
/// where it does not.
pub open spec fn fold_step(folded: Seq<Node>, incoming: Node) -> Seq<Node>
    decreases incoming,
{
    match incoming {
        Node::Loop(body) => folded.push(Node::Loop(optimize_spec(body))),
        _ => if folded.len() > 0 && absorbs(folded.last(), incoming) {
            folded.drop_last().push(bumped(folded.last()))
        } else {
            folded.push(incoming)
        },
    }
}

/// The optimized tree: the nodes folded one after the other from the left,
/// and every loop body optimized in the same way.
pub open spec fn optimize_spec(nodes: Seq<Node>) -> Seq<Node>
    decreases nodes,
{
    if nodes.len() == 0 {
        Seq::empty()
    } else {
        fold_step(optimize_spec(nodes.drop_last()), nodes.last())
    }
}

/// Replaces the last element of `v` by `e`; on an empty vector, appends `e`.
fn replace_top<T>(v: &mut Vec<T>, e: T)
    ensures
        final(v)@ == (if old(v)@.len() > 0 {
            old(v)@.drop_last().push(e)
        } else {
            seq![e]
        }),
{
    v.pop();
    v.push(e);
}

/// The node that `last` becomes when it absorbs `incoming`, or `None` where
/// it does not absorb it.
fn merged(last: &Expression, incoming: &Expression) -> (merged: Option<Expression>)
    ensures
        match merged {
            Some(node) => absorbs(node_of(*last), node_of(*incoming)) && node_of(node) == bumped(
                node_of(*last),
            ),
            None => !absorbs(node_of(*last), node_of(*incoming)),
        },
{
    match (last, incoming) {
        (Expression::IncValue(n), Expression::IncValue(m)) => {
            if *m == 1 && *n < u32::MAX {
                Some(Expression::IncValue(*n + 1))
            } else {
                None
            }
        },
        (Expression::DecValue(n), Expression::DecValue(m)) => {
            if *m == 1 && *n < u32::MAX {
                Some(Expression::DecValue(*n + 1))
            } else {
                None
            }
        },
        (Expression::MoveForward(n), Expression::MoveForward(m)) => {
            if *m == 1 && *n < usize::MAX {
                Some(Expression::MoveForward(*n + 1))
            } else {
                None
            }
        },
        (Expression::MoveBack(n), Expression::MoveBack(m)) => {
            if *m == 1 && *n < usize::MAX {
                Some(Expression::MoveBack(*n + 1))
            } else {
                None
            }
        },
        _ => None,
    }
}

/// Folds runs of unit steps into counted nodes, in every loop body too. A
/// node of count 1 that follows a counted node of its own kind is added to
/// that node's count, unless the count is already the largest that fits;
/// `InputValue`, `OutputValue` and nodes of another count are never merged.
pub fn optimize(expressions: &Vec<Expression>) -> (optimized: Vec<Expression>)
    ensures
        nodes_of(optimized@) == optimize_spec(nodes_of(expressions@)),
    decreases expressions,
{
    let mut optimized: Vec<Expression> = Vec::new();
    let mut i: usize = 0;
    while i < expressions.len()
        invariant
            i <= expressions.len(),
            nodes_of(optimized@) == optimize_spec(nodes_of(expressions@.take(i as int))),
        decreases expressions.len() - i,
    {
        let expression = &expressions[i];
        let ghost folded = nodes_of(optimized@);
        let ghost incoming = node_of(*expression);
        proof {
            let seen = expressions@.take(i as int);
            assert(seen.push(*expression) == expressions@.take(i + 1));
            lemma_nodes_of_push(seen, *expression);
            assert(nodes_of(seen).push(incoming).drop_last() == nodes_of(seen));
            assert(optimize_spec(nodes_of(expressions@.take(i + 1))) == fold_step(folded, incoming));
            lemma_nodes_of(optimized@);
        }
        match expression {
            Expression::Loop(body) => {
                let node = Expression::Loop(optimize(body));
                proof {
                    lemma_nodes_of_push(optimized@, node);
                }
                optimized.push(node);
                assert(nodes_of(optimized@) == fold_step(folded, incoming));
            },
            _ => {
                let len = optimized.len();
                let absorbed = if len > 0 {
                    merged(&optimized[len - 1], expression)
                } else {
                    None
                };
                match absorbed {
                    Some(node) => {
                        proof {
                            let rest = optimized@.drop_last();
                            lemma_nodes_of_push(rest, node);
                            assert(rest.push(optimized@.last()) == optimized@);
                            lemma_nodes_of_push(rest, optimized@.last());
                            assert(nodes_of(rest).push(node_of(optimized@.last())).drop_last()
                                == nodes_of(rest));
                            assert(folded.last() == node_of(optimized@.last()));
                            assert(folded.drop_last() == nodes_of(rest));
                        }
                        replace_top(&mut optimized, node);
                        assert(nodes_of(optimized@) == fold_step(folded, incoming));
                    },
                    None => {
                        let node = expression.clone();
                        proof {
                            lemma_nodes_of_push(optimized@, node);
                            assert(node_of(node) == incoming);
                            assert(len > 0 ==> folded.last() == node_of(optimized@.last()));
                        }
                        optimized.push(node);
                        assert(nodes_of(optimized@) == fold_step(folded, incoming));
                    },
                }
            },
        }
        i += 1;
    }
    proof {
        assert(expressions@.take(i as int) == expressions@);
    }
    optimized
}

/// Whether the tree is folded as far as its counts allow: wherever two
/// neighbours are counted steps of one kind, the first holds the largest
/// count that fits; and every loop body is folded so too.
pub open spec fn is_folded(nodes: Seq<Node>) -> bool
    decreases nodes,
{
    &&& forall|i: int|
        0 <= i < nodes.len() - 1 && (#[trigger] nodes[i]).same_kind(nodes[i + 1])
            ==> nodes[i].is_saturated()
    &&& forall|i: int| 0 <= i < nodes.len() ==> body_is_folded(#[trigger] nodes[i])
}

/// Whether the node, if it is a loop, has a folded body.
pub open spec fn body_is_folded(node: Node) -> bool
    decreases node,
{
    match node {
        Node::Loop(body) => is_folded(body),
        _ => true,
    }
}

/// The unit steps that a node stands for: a counted step as many times as
/// its count says, a loop with its body expanded, any other node as it is.
pub open spec fn expand_node(node: Node) -> Seq<Node>
    decreases node,
{
    match node {
        Node::IncValue(n) => Seq::new(n as nat, |i: int| Node::IncValue(1)),
        Node::DecValue(n) => Seq::new(n as nat, |i: int| Node::DecValue(1)),
        Node::MoveForward(n) => Seq::new(n as nat, |i: int| Node::MoveForward(1)),
        Node::MoveBack(n) => Seq::new(n as nat, |i: int| Node::MoveBack(1)),
        Node::Loop(body) => seq![Node::Loop(expand(body))],
        _ => seq![node],
    }
}

/// The unit tree that a tree stands for.
pub open spec fn expand(nodes: Seq<Node>) -> Seq<Node>
    decreases nodes,
{
    if nodes.len() == 0 {
        Seq::empty()
    } else {
        expand(nodes.drop_last()) + expand_node(nodes.last())
    }
}

/// The definition of [`optimize_spec`] on a tree that is not empty, with the
/// three cases of [`fold_step`] spelled out.
proof fn lemma_optimize_unfold(nodes: Seq<Node>)
    requires
        nodes.len() > 0,
    ensures
        ({
            let folded = optimize_spec(nodes.drop_last());
            let last = nodes.last();
            &&& optimize_spec(nodes) == fold_step(folded, last)
            &&& last matches Node::Loop(body) ==> optimize_spec(nodes) == folded.push(
                Node::Loop(optimize_spec(body)),
            )
            &&& !(last is Loop) && folded.len() > 0 && absorbs(folded.last(), last)
                ==> optimize_spec(nodes) == folded.drop_last().push(bumped(folded.last()))
            &&& !(last is Loop) && !(folded.len() > 0 && absorbs(folded.last(), last))
                ==> optimize_spec(nodes) == folded.push(last)
        }),
{
    let folded = optimize_spec(nodes.drop_last());
    let last = nodes.last();
    assert(optimize_spec(nodes) == fold_step(folded, last));
}

/// Optimizing a tree without zero counts gives a tree without zero counts.
pub proof fn lemma_optimize_positive(nodes: Seq<Node>)
    requires
        all_positive(nodes),
    ensures
        all_positive(optimize_spec(nodes)),
    decreases nodes,
{
    if nodes.len() > 0 {
        let folded = optimize_spec(nodes.drop_last());
        lemma_optimize_positive(nodes.drop_last());
        match nodes.last() {
            Node::Loop(body) => {
                lemma_optimize_positive(body);
            },
            _ => {},
        }
        let result = fold_step(folded, nodes.last());
        assert forall|i: int| 0 <= i < result.len() implies (#[trigger] result[i]).is_positive() by {
            if i < result.len() - 1 {
                assert(result[i] == folded[i]);
            }
        }
    }
}

/// A tree without zero counts that optimizing leaves as it is stays so when
/// its last node is taken away.
proof fn lemma_fixed_prefix(nodes: Seq<Node>)
    requires
        nodes.len() > 0,
        all_positive(nodes),
        optimize_spec(nodes) == nodes,
    ensures
        optimize_spec(nodes.drop_last()) == nodes.drop_last(),
{
    let folded = optimize_spec(nodes.drop_last());
    lemma_optimize_positive(nodes.drop_last());
    lemma_optimize_unfold(nodes);
    let last = nodes.last();
    if !(last is Loop) && folded.len() > 0 && absorbs(folded.last(), last) {
        assert(nodes == folded.drop_last().push(bumped(folded.last())));
        assert(nodes.last() == bumped(folded.last()));
        assert(folded.last().is_positive());
        assert(false);
    } else {
        assert(exists|node: Node| nodes == folded.push(node)) by {
            match last {
                Node::Loop(body) => {
                    assert(nodes == folded.push(Node::Loop(optimize_spec(body))));
                },
                _ => {
                    assert(nodes == folded.push(last));
                },
            }
        }
        let node = choose|node: Node| nodes == folded.push(node);
        assert(folded.push(node).drop_last() == folded);
    }
}

/// Optimizing is idempotent on every tree without zero counts: a second
/// pass changes nothing.
pub proof fn lemma_optimize_idempotent(nodes: Seq<Node>)
    requires
        all_positive(nodes),
    ensures
        optimize_spec(optimize_spec(nodes)) == optimize_spec(nodes),
    decreases nodes,
{
    if nodes.len() > 0 {
        let folded = optimize_spec(nodes.drop_last());
        let last = nodes.last();
        let result = optimize_spec(nodes);
        lemma_optimize_idempotent(nodes.drop_last());
        lemma_optimize_positive(nodes.drop_last());
        lemma_optimize_unfold(nodes);
        lemma_optimize_unfold(result);
        match last {
            Node::Loop(body) => {
                lemma_optimize_idempotent(body);
                let inner = Node::Loop(optimize_spec(body));
                assert(result == folded.push(inner));
                assert(result.drop_last() == folded);
                assert(optimize_spec(result) == fold_step(folded, inner));
            },
            _ => {
                if folded.len() > 0 && absorbs(folded.last(), last) {
                    let top = bumped(folded.last());
                    assert(result == folded.drop_last().push(top));
                    assert(result.drop_last() == folded.drop_last());
                    lemma_fixed_prefix(folded);
                    assert(optimize_spec(result) == fold_step(folded.drop_last(), top));
                    assert(top.count() >= 2);
                } else {
                    assert(result == folded.push(last));
                    assert(result.drop_last() == folded);
                    assert(optimize_spec(result) == fold_step(folded, last));
                }
            },
        }
    }
}

/// Optimizing is idempotent on every tree that the parser builds.
pub proof fn lemma_optimize_idempotent_on_parsed(tokens: Seq<Token>)
    requires
        parse_spec(tokens) is Ok,
    ensures
        ({
            let tree = parse_spec(tokens)->Ok_0;
            optimize_spec(optimize_spec(tree)) == optimize_spec(tree)
        }),
{
    let tree = parse_spec(tokens)->Ok_0;
    lemma_parse_unit(tokens);
    crate::ast::lemma_unit_is_positive(tree);
    lemma_optimize_idempotent(tree);
}

/// Folding is maximal: in the optimized form of a unit tree, two neighbours
/// are counted steps of one kind only where the first holds the largest
/// count that fits.
pub proof fn lemma_optimize_folds(nodes: Seq<Node>)
    requires
        all_unit(nodes),
    ensures
        is_folded(optimize_spec(nodes)),
    decreases nodes,
{
    if nodes.len() > 0 {
        let folded = optimize_spec(nodes.drop_last());
        let last = nodes.last();
        let result = optimize_spec(nodes);
        lemma_optimize_folds(nodes.drop_last());
        lemma_optimize_unfold(nodes);
        assert(last.is_unit());
        match last {
            Node::Loop(body) => {
                lemma_optimize_folds(body);
            },
            _ => {},
        }
        assert forall|i: int| 0 <= i < result.len() implies body_is_folded(#[trigger] result[i]) by {
            if i < result.len() - 1 {
                assert(result[i] == folded[i]);
            }
        }
        assert forall|i: int|
            0 <= i < result.len() - 1 && (#[trigger] result[i]).same_kind(
                result[i + 1],
            ) implies result[i].is_saturated() by {
            assert(result[i] == folded[i]);
            if i < result.len() - 2 {
                assert(result[i + 1] == folded[i + 1]);
            }
        }
    }
}

/// Expanding a concatenation expands its parts.
proof fn lemma_expand_push(nodes: Seq<Node>, node: Node)
    ensures
        expand(nodes.push(node)) == expand(nodes) + expand_node(node),
{
    assert(nodes.push(node).drop_last() == nodes);
}

/// Optimizing loses nothing: the optimized tree stands for the same unit
/// steps as the tree it was made from.
pub proof fn lemma_optimize_lossless(nodes: Seq<Node>)
    ensures
        expand(optimize_spec(nodes)) == expand(nodes),
    decreases nodes,
{
    if nodes.len() > 0 {
        let rest = nodes.drop_last();
        let folded = optimize_spec(rest);
        let last = nodes.last();
        lemma_optimize_lossless(rest);
        lemma_optimize_unfold(nodes);
        assert(expand(nodes) == expand(rest) + expand_node(last));
        match last {
            Node::Loop(body) => {
                lemma_optimize_lossless(body);
                let inner = Node::Loop(optimize_spec(body));
                lemma_expand_push(folded, inner);
                assert(expand_node(inner) == expand_node(last));
            },
            _ => {
                if folded.len() > 0 && absorbs(folded.last(), last) {
                    let top = folded.last();
                    let front = folded.drop_last();
                    lemma_expand_push(front, bumped(top));
                    lemma_expand_push(front, top);
                    assert(front.push(top) == folded);
                    assert(expand_node(bumped(top)) == expand_node(top) + expand_node(last)) by {
                        lemma_expand_bumped(top, last);
                    }
                    assert(expand(front) + (expand_node(top) + expand_node(last)) == (expand(front)
                        + expand_node(top)) + expand_node(last));
                } else {
                    lemma_expand_push(folded, last);
                }
            },
        }
    }
}

/// A node that absorbed a unit step stands for its own steps and that one.
proof fn lemma_expand_bumped(top: Node, incoming: Node)
    requires
        absorbs(top, incoming),
    ensures
        expand_node(bumped(top)) == expand_node(top) + expand_node(incoming),
{
    match top {
        Node::IncValue(n) => {
            assert(incoming == Node::IncValue(1));
            assert(expand_node(Node::IncValue((n + 1) as u32)) =~= expand_node(top) + expand_node(
                incoming,
            ));
        },
        Node::DecValue(n) => {
            assert(incoming == Node::DecValue(1));
            assert(expand_node(Node::DecValue((n + 1) as u32)) =~= expand_node(top) + expand_node(
                incoming,
            ));
        },
        Node::MoveForward(n) => {
            assert(incoming == Node::MoveForward(1));
            assert(expand_node(Node::MoveForward((n + 1) as usize)) =~= expand_node(top)
                + expand_node(incoming));
        },
        Node::MoveBack(n) => {
            assert(incoming == Node::MoveBack(1));
            assert(expand_node(Node::MoveBack((n + 1) as usize)) =~= expand_node(top)
                + expand_node(incoming));
        },
        _ => {},
    }
}

/// A unit tree stands for itself.
pub proof fn lemma_expand_unit(nodes: Seq<Node>)
    requires
        all_unit(nodes),
    ensures
        expand(nodes) == nodes,
    decreases nodes,
{
    if nodes.len() > 0 {
        lemma_expand_unit(nodes.drop_last());
        let last = nodes.last();
        assert(last.is_unit());
        match last {
            Node::Loop(body) => {
                lemma_expand_unit(body);
            },
            _ => {},
        }
        assert(expand_node(last) == seq![last]);
        assert(nodes.drop_last() + seq![last] == nodes);
    }
}

} // verus!
