//! The parser: a token sequence to a nested expression tree.
//!
//! The scan is a single pass from left to right, recursive over the nesting
//! level. [`parse_level`] is its mathematical statement; [`parse`] computes it.

use crate::ast::{all_unit, lemma_nodes_of_push, nodes_of, Expression, Node};
use crate::error::InvalidProgramError;
use crate::token::Token;
use vstd::prelude::*;

verus! {

/// What the scan of one nesting level gives.
pub enum Parsed {
    /// The nodes of the level, and the index of the first token after those
    /// that the scan consumed.
    Block(Seq<Node>, int),
    /// The first structural error that the scan met.
    Failed(InvalidProgramError),
}

/// The count-1 node of a primitive instruction token; `None` for brackets
/// and sentinels.
pub open spec fn unit_node(token: Token) -> Option<Node> {
    match token {
        Token::MoveForward(_) => Some(Node::MoveForward(1)),
        Token::MoveBack(_) => Some(Node::MoveBack(1)),
        Token::IncValue(_) => Some(Node::IncValue(1)),
        Token::DecValue(_) => Some(Node::DecValue(1)),
        Token::OutputValue(_) => Some(Node::OutputValue),
        Token::InputValue(_) => Some(Node::InputValue),
        _ => None,
    }
}

/// The scan of `tokens` from index `start` at nesting level `level`, with
/// `parsed` the nodes that the level holds so far.
///
/// An opening bracket scans its body one level deeper and goes on after the
/// closing bracket that ended the body. A closing bracket ends the level, or
/// fails at level 0. `ProgramEnd` fails inside a loop and is passed over at
/// level 0, `ProgramStart` is passed over, and the end of the tokens ends the
/// scan at any level.
pub open spec fn parse_level(tokens: Seq<Token>, start: int, level: nat, parsed: Seq<Node>) -> Parsed
    decreases tokens.len() - start,
{
    if start < 0 || start >= tokens.len() {
        Parsed::Block(parsed, start)
    } else {
        match tokens[start] {
            Token::LoopStart(_) => match parse_level(tokens, start + 1, level + 1, Seq::empty()) {
                Parsed::Failed(error) => Parsed::Failed(error),
                Parsed::Block(body, next) => if start < next <= tokens.len() {
                    parse_level(tokens, next, level, parsed.push(Node::Loop(body)))
                } else {
                    Parsed::Block(parsed, start)
                },
            },
            Token::LoopEnd(pos) => if level == 0 {
                Parsed::Failed(InvalidProgramError::UnexpectedClosingBracket(pos))
            } else {
                Parsed::Block(parsed, start + 1)
            },
            Token::ProgramEnd => if level > 0 {
                Parsed::Failed(InvalidProgramError::ExcessiveOpeningBrackets(0))
            } else {
                parse_level(tokens, start + 1, level, parsed)
            },
            Token::ProgramStart => parse_level(tokens, start + 1, level, parsed),
            token => parse_level(tokens, start + 1, level, parsed.push(unit_node(token).unwrap())),
        }
    }
}

/// The tree of a token sequence, or the first structural error in it.
pub open spec fn parse_spec(tokens: Seq<Token>) -> Result<Seq<Node>, InvalidProgramError> {
    match parse_level(tokens, 0, 0, Seq::empty()) {
        Parsed::Block(tree, _) => Ok(tree),
        Parsed::Failed(error) => Err(error),
    }
}

/// A scan that succeeds stops at or after its start and within the tokens.
pub proof fn lemma_parse_level_advances(tokens: Seq<Token>, start: int, level: nat, parsed: Seq<Node>)
    requires
        0 <= start <= tokens.len(),
    ensures
        parse_level(tokens, start, level, parsed) matches Parsed::Block(_, next) ==> start <= next
            <= tokens.len(),
    decreases tokens.len() - start,
{
    if start < tokens.len() {
        match tokens[start] {
            Token::LoopStart(_) => {
                lemma_parse_level_advances(tokens, start + 1, level + 1, Seq::empty());
                match parse_level(tokens, start + 1, level + 1, Seq::empty()) {
                    Parsed::Failed(_) => {},
                    Parsed::Block(body, next) => {
                        lemma_parse_level_advances(
                            tokens,
                            next,
                            level,
                            parsed.push(Node::Loop(body)),
                        );
                    },
                }
            },
            Token::LoopEnd(_) => {},
            Token::ProgramEnd => {
                if level == 0 {
                    lemma_parse_level_advances(tokens, start + 1, level, parsed);
                }
            },
            Token::ProgramStart => {
                lemma_parse_level_advances(tokens, start + 1, level, parsed);
            },
            token => {
                lemma_parse_level_advances(
                    tokens,
                    start + 1,
                    level,
                    parsed.push(unit_node(token).unwrap()),
                );
            },
        }
    }
}

/// A scan that starts from unit nodes gives unit nodes: every count in a
/// parsed level is 1.
pub proof fn lemma_parse_level_unit(tokens: Seq<Token>, start: int, level: nat, parsed: Seq<Node>)
    requires
        0 <= start <= tokens.len(),
        all_unit(parsed),
    ensures
        parse_level(tokens, start, level, parsed) matches Parsed::Block(nodes, _) ==> all_unit(
            nodes,
        ),
    decreases tokens.len() - start,
{
    if start < tokens.len() {
        match tokens[start] {
            Token::LoopStart(_) => {
                lemma_parse_level_advances(tokens, start + 1, level + 1, Seq::empty());
                lemma_parse_level_unit(tokens, start + 1, level + 1, Seq::empty());
                match parse_level(tokens, start + 1, level + 1, Seq::empty()) {
                    Parsed::Failed(_) => {},
                    Parsed::Block(body, next) => {
                        lemma_parse_level_unit(tokens, next, level, parsed.push(Node::Loop(body)));
                    },
                }
            },
            Token::LoopEnd(_) => {},
            Token::ProgramEnd => {
                if level == 0 {
                    lemma_parse_level_unit(tokens, start + 1, level, parsed);
                }
            },
            Token::ProgramStart => {
                lemma_parse_level_unit(tokens, start + 1, level, parsed);
            },
            token => {
                lemma_parse_level_unit(
                    tokens,
                    start + 1,
                    level,
                    parsed.push(unit_node(token).unwrap()),
                );
            },
        }
    }
}

/// Every tree that the parser builds is a unit tree: each count in it is 1.
pub proof fn lemma_parse_unit(tokens: Seq<Token>)
    ensures
        parse_spec(tokens) matches Ok(tree) ==> all_unit(tree),
{
    lemma_parse_level_unit(tokens, 0, 0, Seq::empty());
}

/// Builds the expression tree of a token sequence. Fails with
/// `UnexpectedClosingBracket` at the first closing bracket that closes no
/// loop, and with `ExcessiveOpeningBrackets` (position 0) where the program
/// ends inside a loop; the first error of the scan is the one reported.
pub fn parse(tokens: &Vec<Token>) -> (result: Result<Vec<Expression>, InvalidProgramError>)
    ensures
        match parse_spec(tokens@) {
            Ok(tree) => result matches Ok(expressions) && nodes_of(expressions@) == tree,
            Err(error) => result matches Err(e) && e == error,
        },
{
    match do_parse(tokens, 0, 0) {
        Ok((expressions, _)) => Ok(expressions),
        Err(error) => Err(error),
    }
}

/// Scans one nesting level from `start`, and returns its expressions with
/// the index after the last token consumed.
fn do_parse(tokens: &Vec<Token>, start: usize, level: usize) -> (result: Result<
    (Vec<Expression>, usize),
    InvalidProgramError,
>)
    requires
        level <= start <= tokens.len(),
    ensures
        match parse_level(tokens@, start as int, level as nat, Seq::empty()) {
            Parsed::Block(body, next) => result matches Ok((expressions, cursor)) && nodes_of(
                expressions@,
            ) == body && cursor == next && start <= cursor <= tokens.len(),
            Parsed::Failed(error) => result matches Err(e) && e == error,
        },
    decreases tokens.len() - start,
{
    let mut expressions: Vec<Expression> = Vec::new();
    let mut cursor: usize = start;
    let ghost goal = parse_level(tokens@, start as int, level as nat, Seq::empty());
    while cursor < tokens.len()
        invariant
            level <= cursor,
            start <= cursor <= tokens.len(),
            goal == parse_level(tokens@, start as int, level as nat, Seq::empty()),
            goal == parse_level(tokens@, cursor as int, level as nat, nodes_of(expressions@)),
        decreases tokens.len() - cursor,
    {
        let token = tokens[cursor];
        match token {
            Token::LoopStart(_) => {
                match do_parse(tokens, cursor + 1, level + 1) {
                    Err(error) => {
                        return Err(error);
                    },
                    Ok((body, next)) => {
                        let node = Expression::Loop(body);
                        proof {
                            lemma_nodes_of_push(expressions@, node);
                        }
                        expressions.push(node);
                        cursor = next;
                    },
                }
            },
            Token::LoopEnd(pos) => {
                if level == 0 {
                    return Err(InvalidProgramError::UnexpectedClosingBracket(pos));
                } else {
                    return Ok((expressions, cursor + 1));
                }
            },
            Token::ProgramEnd => {
                if level > 0 {
                    return Err(InvalidProgramError::ExcessiveOpeningBrackets(0));
                }
                cursor += 1;
            },
            Token::ProgramStart => {
                cursor += 1;
            },
            Token::MoveForward(_) => {
                proof {
                    lemma_nodes_of_push(expressions@, Expression::MoveForward(1));
                }
                expressions.push(Expression::MoveForward(1));
                cursor += 1;
            },
            Token::MoveBack(_) => {
                proof {
                    lemma_nodes_of_push(expressions@, Expression::MoveBack(1));
                }
                expressions.push(Expression::MoveBack(1));
                cursor += 1;
            },
            Token::IncValue(_) => {
                proof {
                    lemma_nodes_of_push(expressions@, Expression::IncValue(1));
                }
                expressions.push(Expression::IncValue(1));
                cursor += 1;
            },
            Token::DecValue(_) => {
                proof {
                    lemma_nodes_of_push(expressions@, Expression::DecValue(1));
                }
                expressions.push(Expression::DecValue(1));
                cursor += 1;
            },
            Token::OutputValue(_) => {
                proof {
                    lemma_nodes_of_push(expressions@, Expression::OutputValue);
                }
                expressions.push(Expression::OutputValue);
                cursor += 1;
            },
            Token::InputValue(_) => {
                proof {
                    lemma_nodes_of_push(expressions@, Expression::InputValue);
                }
                expressions.push(Expression::InputValue);
                cursor += 1;
            },
        }
    }
    Ok((expressions, cursor))
}

} // verus!
