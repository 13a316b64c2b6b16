//! The expression tree and its mathematical model.

use vstd::prelude::*;

verus! {

/// A node of the expression tree. A counted node stands for that many unit
/// steps of its kind; a loop owns its body.
#[derive(Debug, PartialEq)]
pub enum Expression {
    IncValue(u32),
    DecValue(u32),
    MoveForward(usize),
    MoveBack(usize),
    InputValue,
    OutputValue,
    Loop(Vec<Expression>),
}

/// The model of an [`Expression`]: the same tree with mathematical
/// sequences for loop bodies. Two expressions with the same model are the
/// same tree.
pub enum Node {
    IncValue(u32),
    DecValue(u32),
    MoveForward(usize),
    MoveBack(usize),
    InputValue,
    OutputValue,
    Loop(Seq<Node>),
}

/// The model of one expression.
pub open spec fn node_of(expression: Expression) -> Node
    decreases expression,
{
    match expression {
        Expression::IncValue(n) => Node::IncValue(n),
        Expression::DecValue(n) => Node::DecValue(n),
        Expression::MoveForward(n) => Node::MoveForward(n),
        Expression::MoveBack(n) => Node::MoveBack(n),
        Expression::InputValue => Node::InputValue,
        Expression::OutputValue => Node::OutputValue,
        Expression::Loop(body) => Node::Loop(nodes_of(body@)),
    }
}

/// The model of a sequence of expressions, node by node.
pub open spec fn nodes_of(expressions: Seq<Expression>) -> Seq<Node>
    decreases expressions,
{
    if expressions.len() == 0 {
        Seq::empty()
    } else {
        nodes_of(expressions.drop_last()).push(node_of(expressions.last()))
    }
}

/// `nodes_of` keeps the length and models each expression in place.
pub proof fn lemma_nodes_of(expressions: Seq<Expression>)
    ensures
        nodes_of(expressions).len() == expressions.len(),
        forall|i: int|
            0 <= i < expressions.len() ==> #[trigger] nodes_of(expressions)[i] == node_of(
                expressions[i],
            ),
    decreases expressions.len(),
{
    if expressions.len() > 0 {
        lemma_nodes_of(expressions.drop_last());
    }
}

/// Appending an expression appends its model.
pub proof fn lemma_nodes_of_push(expressions: Seq<Expression>, expression: Expression)
    ensures
        nodes_of(expressions.push(expression)) == nodes_of(expressions).push(node_of(expression)),
{
    assert(expressions.push(expression).drop_last() == expressions);
}

impl Node {
    /// The count of a counted step, and 1 for every other node.
    pub open spec fn count(self) -> nat {
        match self {
            Node::IncValue(n) => n as nat,
            Node::DecValue(n) => n as nat,
            Node::MoveForward(n) => n as nat,
            Node::MoveBack(n) => n as nat,
            _ => 1,
        }
    }

    /// Whether both nodes are counted steps of one kind.
    pub open spec fn same_kind(self, other: Node) -> bool {
        ||| self is IncValue && other is IncValue
        ||| self is DecValue && other is DecValue
        ||| self is MoveForward && other is MoveForward
        ||| self is MoveBack && other is MoveBack
    }

    /// Whether the node's count is the largest that its field can hold.
    pub open spec fn is_saturated(self) -> bool {
        match self {
            Node::IncValue(n) => n == u32::MAX,
            Node::DecValue(n) => n == u32::MAX,
            Node::MoveForward(n) => n == usize::MAX,
            Node::MoveBack(n) => n == usize::MAX,
            _ => false,
        }
    }

    /// Whether every count in the node and below it is 1.
    pub open spec fn is_unit(self) -> bool
        decreases self,
    {
        match self {
            Node::Loop(body) => all_unit(body),
            _ => self.count() == 1,
        }
    }

    /// Whether no count in the node or below it is 0.
    pub open spec fn is_positive(self) -> bool
        decreases self,
    {
        match self {
            Node::Loop(body) => all_positive(body),
            _ => self.count() >= 1,
        }
    }
}

/// Whether every count in the tree is 1, as in every tree that the parser
/// builds.
pub open spec fn all_unit(nodes: Seq<Node>) -> bool
    decreases nodes,
{
    forall|i: int| 0 <= i < nodes.len() ==> (#[trigger] nodes[i]).is_unit()
}

/// Whether no count in the tree is 0.
pub open spec fn all_positive(nodes: Seq<Node>) -> bool
    decreases nodes,
{
    forall|i: int| 0 <= i < nodes.len() ==> (#[trigger] nodes[i]).is_positive()
}

/// A unit tree has no zero count.
pub proof fn lemma_unit_is_positive(nodes: Seq<Node>)
    requires
        all_unit(nodes),
    ensures
        all_positive(nodes),
    decreases nodes,
{
    assert forall|i: int| 0 <= i < nodes.len() implies (#[trigger] nodes[i]).is_positive() by {
        match nodes[i] {
            Node::Loop(body) => {
                lemma_unit_is_positive(body);
            },
            _ => {},
        }
    }
}

impl View for Expression {
    type V = Node;

    open spec fn view(&self) -> Node {
        node_of(*self)
    }
}

/// Copies a sequence of expressions, node by node.
fn clone_all(expressions: &Vec<Expression>) -> (copy: Vec<Expression>)
    ensures
        nodes_of(copy@) == nodes_of(expressions@),
    decreases expressions,
{
    let mut copy: Vec<Expression> = Vec::new();
    let mut i: usize = 0;
    while i < expressions.len()
        invariant
            i <= expressions.len(),
            nodes_of(copy@) == nodes_of(expressions@.take(i as int)),
        decreases expressions.len() - i,
    {
        let item = clone_one(&expressions[i]);
        proof {
            lemma_nodes_of_push(copy@, item);
            lemma_nodes_of_push(expressions@.take(i as int), expressions@[i as int]);
            assert(expressions@.take(i as int).push(expressions@[i as int]) == expressions@.take(
                i + 1,
            ));
        }
        copy.push(item);
        i += 1;
    }
    proof {
        assert(expressions@.take(i as int) == expressions@);
    }
    copy
}

/// Copies one expression with everything below it.
fn clone_one(expression: &Expression) -> (copy: Expression)
    ensures
        node_of(copy) == node_of(*expression),
    decreases expression,
{
    match expression {
        Expression::IncValue(n) => Expression::IncValue(*n),
        Expression::DecValue(n) => Expression::DecValue(*n),
        Expression::MoveForward(n) => Expression::MoveForward(*n),
        Expression::MoveBack(n) => Expression::MoveBack(*n),
        Expression::InputValue => Expression::InputValue,
        Expression::OutputValue => Expression::OutputValue,
        Expression::Loop(body) => Expression::Loop(clone_all(body)),
    }
}

impl Clone for Expression {
    /// A deep copy: the same tree in fresh storage.
    fn clone(&self) -> (copy: Expression)
        ensures
            copy@ == self@,
    {
        clone_one(self)
    }
}

} // verus!
