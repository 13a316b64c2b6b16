//! Bracket matching: what the parser's verdict says of the brackets.

use crate::ast::Node;
use crate::error::InvalidProgramError;
use crate::parser::{parse_level, parse_spec, unit_node, Parsed};
use crate::token::{instruction_tokens, tokenize_spec, Token};
use vstd::prelude::*;

verus! {

/// By how much a token changes the nesting depth.
pub open spec fn depth_change(token: Token) -> int {
    match token {
        Token::LoopStart(_) => 1,
        Token::LoopEnd(_) => -1,
        _ => 0,
    }
}

/// The nesting depth after the first `n` tokens: the opening brackets among
/// them less the closing ones.
pub open spec fn depth(tokens: Seq<Token>, n: int) -> int
    decreases n,
{
    if n <= 0 {
        0
    } else {
        depth(tokens, n - 1) + depth_change(tokens[n - 1])
    }
}

/// Whether no closing bracket among the first `n` tokens closes a loop that
/// was not opened.
pub open spec fn never_negative(tokens: Seq<Token>, n: int) -> bool {
    forall|i: int| 0 <= i <= n ==> #[trigger] depth(tokens, i) >= 0
}

/// Whether the token at `at` is the first closing bracket that closes no
/// loop.
pub open spec fn first_stray(tokens: Seq<Token>, at: int) -> bool {
    &&& 0 <= at < tokens.len()
    &&& tokens[at] is LoopEnd
    &&& depth(tokens, at) == 0
    &&& never_negative(tokens, at)
}

/// Whether the tokens end with `ProgramEnd` and hold no other, as every
/// token sequence of the tokenizer does.
pub open spec fn is_program(tokens: Seq<Token>) -> bool {
    &&& tokens.len() > 0
    &&& tokens.last() == Token::ProgramEnd
    &&& forall|i: int| 0 <= i < tokens.len() - 1 ==> tokens[i] != Token::ProgramEnd
}

/// What the scan of a level says of the brackets, where the scan starts at
/// the depth of its level and no bracket before it was stray.
pub proof fn lemma_parse_level_depth(tokens: Seq<Token>, start: int, level: nat, parsed: Seq<Node>)
    requires
        is_program(tokens),
        0 <= start <= tokens.len(),
        level > 0 ==> start < tokens.len(),
        depth(tokens, start) == level,
        never_negative(tokens, start),
    ensures
        match parse_level(tokens, start, level, parsed) {
            Parsed::Block(_, next) => {
                &&& start <= next <= tokens.len()
                &&& never_negative(tokens, next)
                &&& level == 0 ==> next == tokens.len() && depth(tokens, next) == 0
                &&& level > 0 ==> next < tokens.len() && depth(tokens, next) == level - 1
            },
            Parsed::Failed(InvalidProgramError::UnexpectedClosingBracket(pos)) => exists|at: int|
                first_stray(tokens, at) && tokens[at] == Token::LoopEnd(pos),
            Parsed::Failed(InvalidProgramError::ExcessiveOpeningBrackets(pos)) => {
                &&& pos == 0
                &&& never_negative(tokens, tokens.len() as int)
                &&& depth(tokens, tokens.len() as int) > 0
            },
        },
    decreases tokens.len() - start,
{
    if start < tokens.len() {
        assert(depth(tokens, start + 1) == depth(tokens, start) + depth_change(tokens[start]));
        match tokens[start] {
            Token::LoopStart(_) => {
                lemma_parse_level_depth(tokens, start + 1, level + 1, Seq::empty());
                match parse_level(tokens, start + 1, level + 1, Seq::empty()) {
                    Parsed::Failed(_) => {},
                    Parsed::Block(body, next) => {
                        lemma_parse_level_depth(tokens, next, level, parsed.push(Node::Loop(body)));
                    },
                }
            },
            Token::LoopEnd(pos) => {
                if level == 0 {
                    assert(first_stray(tokens, start) && tokens[start] == Token::LoopEnd(pos));
                }
            },
            Token::ProgramEnd => {
                assert(start == tokens.len() - 1);
                if level == 0 {
                    lemma_parse_level_depth(tokens, start + 1, level, parsed);
                }
            },
            Token::ProgramStart => {
                lemma_parse_level_depth(tokens, start + 1, level, parsed);
            },
            token => {
                lemma_parse_level_depth(
                    tokens,
                    start + 1,
                    level,
                    parsed.push(unit_node(token).unwrap()),
                );
            },
        }
    }
}

/// The parser's verdict is the verdict of bracket counting. It gives a tree
/// exactly where no closing bracket is stray and every loop is closed at the
/// end. It reports `UnexpectedClosingBracket` exactly at the first stray
/// closing bracket, with that bracket's position. It reports
/// `ExcessiveOpeningBrackets`, always with position 0, exactly where no
/// closing bracket is stray and a loop is still open at the end.
pub proof fn lemma_parse_matches_brackets(tokens: Seq<Token>)
    requires
        is_program(tokens),
    ensures
        match parse_spec(tokens) {
            Ok(_) => never_negative(tokens, tokens.len() as int) && depth(
                tokens,
                tokens.len() as int,
            ) == 0,
            Err(InvalidProgramError::UnexpectedClosingBracket(pos)) => exists|at: int|
                first_stray(tokens, at) && tokens[at] == Token::LoopEnd(pos),
            Err(InvalidProgramError::ExcessiveOpeningBrackets(pos)) => pos == 0 && never_negative(
                tokens,
                tokens.len() as int,
            ) && depth(tokens, tokens.len() as int) > 0,
        },
        never_negative(tokens, tokens.len() as int) && depth(tokens, tokens.len() as int) == 0
            ==> parse_spec(tokens) is Ok,
        forall|at: int| #[trigger]
            first_stray(tokens, at) ==> parse_spec(tokens) == Err::<
                Seq<Node>,
                InvalidProgramError,
            >(InvalidProgramError::UnexpectedClosingBracket(tokens[at]->LoopEnd_0)),
        never_negative(tokens, tokens.len() as int) && depth(tokens, tokens.len() as int) > 0
            ==> parse_spec(tokens) == Err::<Seq<Node>, InvalidProgramError>(
            InvalidProgramError::ExcessiveOpeningBrackets(0),
        ),
{
    let len = tokens.len() as int;
    lemma_parse_level_depth(tokens, 0, 0, Seq::empty());
    assert forall|at: int| first_stray(tokens, at) implies !never_negative(tokens, len) by {
        assert(depth(tokens, at + 1) == depth(tokens, at) + depth_change(tokens[at]));
    }
    assert forall|a: int, b: int| first_stray(tokens, a) && first_stray(tokens, b) implies a
        == b by {
        assert(depth(tokens, a + 1) == depth(tokens, a) + depth_change(tokens[a]));
        assert(depth(tokens, b + 1) == depth(tokens, b) + depth_change(tokens[b]));
    }
}

/// The tokens of a source text end with `ProgramEnd` and hold no other.
pub proof fn lemma_tokenize_is_program(program: Seq<char>)
    ensures
        is_program(tokenize_spec(program)),
{
    lemma_no_sentinel(program);
}

/// No instruction token is a sentinel.
proof fn lemma_no_sentinel(program: Seq<char>)
    ensures
        forall|k: int|
            0 <= k < instruction_tokens(program).len() ==> (#[trigger] instruction_tokens(
                program,
            )[k]).position() is Some,
    decreases program.len(),
{
    if program.len() > 0 {
        lemma_no_sentinel(program.drop_last());
    }
}

} // verus!
