//! The tokenizer: characters to positioned instruction tokens.

use crate::error::Position;
use vstd::prelude::*;

verus! {

/// One instruction of the source, with the offset of its character, or one of
/// the two sentinels that bound every token sequence.
#[derive(Debug, Clone, Copy, PartialEq, Eq, Structural)]
pub enum Token {
    ProgramStart,
    ProgramEnd,
    LoopStart(Position),
    LoopEnd(Position),
    IncValue(Position),
    DecValue(Position),
    MoveForward(Position),
    MoveBack(Position),
    InputValue(Position),
    OutputValue(Position),
}

/// The token that the character `c` at offset `pos` stands for, or `None`
/// where `c` is a comment character.
pub open spec fn token_of(c: char, pos: Position) -> Option<Token> {
    if c == '[' {
        Some(Token::LoopStart(pos))
    } else if c == ']' {
        Some(Token::LoopEnd(pos))
    } else if c == '>' {
        Some(Token::MoveForward(pos))
    } else if c == '<' {
        Some(Token::MoveBack(pos))
    } else if c == '+' {
        Some(Token::IncValue(pos))
    } else if c == '-' {
        Some(Token::DecValue(pos))
    } else if c == '.' {
        Some(Token::OutputValue(pos))
    } else if c == ',' {
        Some(Token::InputValue(pos))
    } else {
        None
    }
}

/// The instruction tokens of `program`, in source order, without sentinels.
pub open spec fn instruction_tokens(program: Seq<char>) -> Seq<Token>
    decreases program.len(),
{
    if program.len() == 0 {
        Seq::empty()
    } else {
        let before = instruction_tokens(program.drop_last());
        match token_of(program.last(), (program.len() - 1) as usize) {
            Some(token) => before.push(token),
            None => before,
        }
    }
}

/// The token sequence of `program`: its instruction tokens between the two
/// sentinels.
pub open spec fn tokenize_spec(program: Seq<char>) -> Seq<Token> {
    seq![Token::ProgramStart] + instruction_tokens(program) + seq![Token::ProgramEnd]
}

impl Token {
    /// The source offset that the token carries; sentinels carry none.
    pub open spec fn position(self) -> Option<Position> {
        match self {
            Token::ProgramStart | Token::ProgramEnd => None,
            Token::LoopStart(pos)
            | Token::LoopEnd(pos)
            | Token::IncValue(pos)
            | Token::DecValue(pos)
            | Token::MoveForward(pos)
            | Token::MoveBack(pos)
            | Token::InputValue(pos)
            | Token::OutputValue(pos) => Some(pos),
        }
    }
}

/// Whether `token` is the token of the character at its own position in
/// `program`.
pub open spec fn stands_in(token: Token, program: Seq<char>) -> bool {
    token.position() matches Some(pos) && pos < program.len() && token_of(program[pos as int], pos)
        == Some(token)
}

/// The instruction tokens of a program are its instruction characters, one
/// for one and in order: each token carries the offset of an instruction
/// character and is that character's token, the offsets increase strictly,
/// and every instruction character has its token. A comment character has
/// none.
pub proof fn lemma_instruction_tokens(program: Seq<char>)
    requires
        program.len() <= usize::MAX,
    ensures
        instruction_tokens(program).len() <= program.len(),
        forall|k: int|
            0 <= k < instruction_tokens(program).len() ==> stands_in(
                #[trigger] instruction_tokens(program)[k],
                program,
            ),
        forall|j: int, k: int|
            0 <= j < k < instruction_tokens(program).len() ==> (
            #[trigger] instruction_tokens(program)[j]).position()->0 < (
            #[trigger] instruction_tokens(program)[k]).position()->0,
        forall|i: int|
            0 <= i < program.len() && token_of(program[i], i as usize) is Some
                ==> instruction_tokens(program).contains(
                #[trigger] token_of(program[i], i as usize)->0,
            ),
    decreases program.len(),
{
    if program.len() > 0 {
        let rest = program.drop_last();
        let before = instruction_tokens(rest);
        let tokens = instruction_tokens(program);
        let at = (program.len() - 1) as usize;
        lemma_instruction_tokens(rest);
        assert forall|k: int| 0 <= k < tokens.len() implies stands_in(
            #[trigger] tokens[k],
            program,
        ) by {
            if k < before.len() {
                assert(stands_in(before[k], rest));
            }
        }
        assert forall|j: int, k: int| 0 <= j < k < tokens.len() implies (
        #[trigger] tokens[j]).position()->0 < (#[trigger] tokens[k]).position()->0 by {
            assert(stands_in(before[j], rest));
            if k < before.len() {
                assert(stands_in(before[k], rest));
            }
        }
        assert forall|i: int|
            0 <= i < program.len() && token_of(program[i], i as usize) is Some implies tokens.contains(
            #[trigger] token_of(program[i], i as usize)->0,
        ) by {
            let token = token_of(program[i], i as usize)->0;
            if i < rest.len() {
                assert(rest[i] == program[i]);
                assert(before.contains(token));
                let k = choose|k: int| 0 <= k < before.len() && before[k] == token;
                assert(tokens[k] == token);
            } else {
                assert(tokens[tokens.len() - 1] == token);
            }
        }
    }
}

/// A token sequence begins with `ProgramStart`, ends with `ProgramEnd`,
/// holds the instruction tokens between them, and is at most two longer than
/// the source.
pub proof fn lemma_tokenize_shape(program: Seq<char>)
    requires
        program.len() <= usize::MAX,
    ensures
        tokenize_spec(program).len() == instruction_tokens(program).len() + 2,
        tokenize_spec(program).len() <= program.len() + 2,
        tokenize_spec(program).first() == Token::ProgramStart,
        tokenize_spec(program).last() == Token::ProgramEnd,
        forall|k: int|
            0 < k < tokenize_spec(program).len() - 1 ==> #[trigger] tokenize_spec(program)[k]
                == instruction_tokens(program)[k - 1],
{
    lemma_instruction_tokens(program);
}

/// Converts source characters to tokens. Each of the eight instruction
/// characters gives one token that carries its offset; every other character
/// is a comment and gives none.
pub fn tokenize(program: &Vec<char>) -> (tokens: Vec<Token>)
    ensures
        tokens@ == tokenize_spec(program@),
        tokens.len() <= program.len() + 2,
{
    proof {
        assert(program.len() <= usize::MAX);
        lemma_tokenize_shape(program@);
    }
    let mut tokens: Vec<Token> = Vec::new();
    tokens.push(Token::ProgramStart);
    let mut pos: usize = 0;
    while pos < program.len()
        invariant
            pos <= program.len(),
            tokens@ == seq![Token::ProgramStart] + instruction_tokens(program@.take(pos as int)),
        decreases program.len() - pos,
    {
        let opcode = program[pos];
        proof {
            let next = program@.take(pos + 1);
            assert(next.drop_last() == program@.take(pos as int));
            assert(next.last() == opcode);
        }
        if opcode == '[' {
            tokens.push(Token::LoopStart(pos));
        } else if opcode == ']' {
            tokens.push(Token::LoopEnd(pos));
        } else if opcode == '>' {
            tokens.push(Token::MoveForward(pos));
        } else if opcode == '<' {
            tokens.push(Token::MoveBack(pos));
        } else if opcode == '+' {
            tokens.push(Token::IncValue(pos));
        } else if opcode == '-' {
            tokens.push(Token::DecValue(pos));
        } else if opcode == '.' {
            tokens.push(Token::OutputValue(pos));
        } else if opcode == ',' {
            tokens.push(Token::InputValue(pos));
        }
        pos += 1;
    }
    proof {
        assert(program@.take(pos as int) == program@);
    }
    tokens.push(Token::ProgramEnd);
    tokens
}

} // verus!
