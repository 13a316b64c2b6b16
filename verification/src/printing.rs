//! The source text of a tree, and the law that parsing inverts it.

use crate::ast::Node;
use crate::optimizer::{absorbs, bumped, fold_step, optimize_spec};
use crate::parser::{lemma_parse_level_advances, parse_level, parse_spec, unit_node, Parsed};
use crate::token::{instruction_tokens, token_of, tokenize_spec, Token};
use vstd::prelude::*;

verus! {

/// The instruction character that a token was made from; sentinels have
/// none.
pub open spec fn symbol(token: Token) -> Option<char> {
    match token {
        Token::ProgramStart | Token::ProgramEnd => None,
        Token::LoopStart(_) => Some('['),
        Token::LoopEnd(_) => Some(']'),
        Token::MoveForward(_) => Some('>'),
        Token::MoveBack(_) => Some('<'),
        Token::IncValue(_) => Some('+'),
        Token::DecValue(_) => Some('-'),
        Token::OutputValue(_) => Some('.'),
        Token::InputValue(_) => Some(','),
    }
}

/// The instruction characters of a token sequence, in order.
pub open spec fn text_of(tokens: Seq<Token>) -> Seq<char>
    decreases tokens.len(),
{
    if tokens.len() == 0 {
        Seq::empty()
    } else {
        match symbol(tokens.last()) {
            Some(c) => text_of(tokens.drop_last()).push(c),
            None => text_of(tokens.drop_last()),
        }
    }
}

/// The instruction characters of a source text, in order: the text without
/// its comments.
pub open spec fn instructions(program: Seq<char>) -> Seq<char>
    decreases program.len(),
{
    if program.len() == 0 {
        Seq::empty()
    } else if token_of(program.last(), 0) is Some {
        instructions(program.drop_last()).push(program.last())
    } else {
        instructions(program.drop_last())
    }
}

/// The source text of one node: a counted step as many times as its count
/// says, a loop as its body between brackets.
pub open spec fn source_of_node(node: Node) -> Seq<char>
    decreases node,
{
    match node {
        Node::IncValue(n) => Seq::new(n as nat, |i: int| '+'),
        Node::DecValue(n) => Seq::new(n as nat, |i: int| '-'),
        Node::MoveForward(n) => Seq::new(n as nat, |i: int| '>'),
        Node::MoveBack(n) => Seq::new(n as nat, |i: int| '<'),
        Node::OutputValue => seq!['.'],
        Node::InputValue => seq![','],
        Node::Loop(body) => seq!['['] + source_of(body) + seq![']'],
    }
}

/// The source text of a tree.
pub open spec fn source_of(nodes: Seq<Node>) -> Seq<char>
    decreases nodes,
{
    if nodes.len() == 0 {
        Seq::empty()
    } else {
        source_of(nodes.drop_last()) + source_of_node(nodes.last())
    }
}

/// What closes a level in the source: a bracket inside a loop, nothing at
/// level 0.
pub open spec fn closer(level: nat) -> Seq<char> {
    if level > 0 {
        seq![']']
    } else {
        Seq::empty()
    }
}

/// The text of a concatenation is the concatenation of the texts.
pub proof fn lemma_text_concat(a: Seq<Token>, b: Seq<Token>)
    ensures
        text_of(a + b) == text_of(a) + text_of(b),
    decreases b.len(),
{
    if b.len() == 0 {
        assert(a + b == a);
    } else {
        lemma_text_concat(a, b.drop_last());
        assert((a + b).drop_last() == a + b.drop_last());
        assert((a + b).last() == b.last());
    }
}

/// Tokenizing keeps the instruction characters and nothing else.
pub proof fn lemma_text_of_tokens(program: Seq<char>)
    ensures
        text_of(instruction_tokens(program)) == instructions(program),
        text_of(tokenize_spec(program)) == instructions(program),
    decreases program.len(),
{
    if program.len() > 0 {
        lemma_text_of_tokens(program.drop_last());
        let before = instruction_tokens(program.drop_last());
        match token_of(program.last(), (program.len() - 1) as usize) {
            Some(token) => {
                assert(before.push(token).drop_last() == before);
            },
            None => {},
        }
    }
    let tokens = instruction_tokens(program);
    lemma_text_concat(seq![Token::ProgramStart], tokens);
    lemma_text_concat(seq![Token::ProgramStart] + tokens, seq![Token::ProgramEnd]);
    assert(text_of(seq![Token::ProgramStart]) == Seq::<char>::empty()) by {
        let one = seq![Token::ProgramStart];
        assert(one.last() == Token::ProgramStart);
        assert(one.drop_last() == Seq::<Token>::empty());
        assert(text_of(one.drop_last()) == Seq::<char>::empty());
    }
    assert(text_of(seq![Token::ProgramEnd]) == Seq::<char>::empty()) by {
        let one = seq![Token::ProgramEnd];
        assert(one.last() == Token::ProgramEnd);
        assert(one.drop_last() == Seq::<Token>::empty());
        assert(text_of(one.drop_last()) == Seq::<char>::empty());
    }
    assert(Seq::<char>::empty() + instructions(program) + Seq::<char>::empty() == instructions(
        program,
    ));
}

/// The text of the tokens from `start` is the symbol of the first of them
/// and the text of the rest.
proof fn lemma_text_split(tokens: Seq<Token>, start: int, mid: int, end: int)
    requires
        0 <= start <= mid <= end <= tokens.len(),
    ensures
        text_of(tokens.subrange(start, end)) == text_of(tokens.subrange(start, mid)) + text_of(
            tokens.subrange(mid, end),
        ),
{
    assert(tokens.subrange(start, end) == tokens.subrange(start, mid) + tokens.subrange(mid, end));
    lemma_text_concat(tokens.subrange(start, mid), tokens.subrange(mid, end));
}

/// The text of a single token.
proof fn lemma_text_one(tokens: Seq<Token>, at: int)
    requires
        0 <= at < tokens.len(),
    ensures
        text_of(tokens.subrange(at, at + 1)) == match symbol(tokens[at]) {
            Some(c) => seq![c],
            None => Seq::empty(),
        },
{
    let one = tokens.subrange(at, at + 1);
    assert(one.drop_last() == Seq::<Token>::empty());
    assert(one.last() == tokens[at]);
    assert(text_of(one.drop_last()) == Seq::<char>::empty());
}

/// Appending a node appends its source text.
proof fn lemma_source_push(nodes: Seq<Node>, node: Node)
    ensures
        source_of(nodes.push(node)) == source_of(nodes) + source_of_node(node),
{
    assert(nodes.push(node).drop_last() == nodes);
}

/// The scan of a level reads the level's source text: the nodes that it
/// gives, printed and closed, are the nodes it started with, printed, and
/// the text of the tokens that it consumed. At level 0 the scan consumes
/// every token.
pub proof fn lemma_parse_level_text(tokens: Seq<Token>, start: int, level: nat, parsed: Seq<Node>)
    requires
        tokens.len() > 0,
        tokens.last() == Token::ProgramEnd,
        0 <= start <= tokens.len(),
        level > 0 ==> start < tokens.len(),
    ensures
        match parse_level(tokens, start, level, parsed) {
            Parsed::Block(nodes, next) => {
                &&& start <= next <= tokens.len()
                &&& level == 0 ==> next == tokens.len()
                &&& level > 0 ==> next < tokens.len()
                &&& source_of(nodes) + closer(level) == source_of(parsed) + text_of(
                    tokens.subrange(start, next),
                )
            },
            Parsed::Failed(_) => true,
        },
    decreases tokens.len() - start,
{
    lemma_parse_level_advances(tokens, start, level, parsed);
    if start >= tokens.len() {
        assert(tokens.subrange(start, start) == Seq::<Token>::empty());
        assert(source_of(parsed) + Seq::<char>::empty() == source_of(parsed));
    } else {
        lemma_text_one(tokens, start);
        match tokens[start] {
            Token::LoopStart(_) => {
                lemma_parse_level_advances(tokens, start + 1, level + 1, Seq::empty());
                lemma_parse_level_text(tokens, start + 1, level + 1, Seq::empty());
                match parse_level(tokens, start + 1, level + 1, Seq::empty()) {
                    Parsed::Failed(_) => {},
                    Parsed::Block(body, mid) => {
                        let grown = parsed.push(Node::Loop(body));
                        lemma_parse_level_text(tokens, mid, level, grown);
                        match parse_level(tokens, mid, level, grown) {
                            Parsed::Failed(_) => {},
                            Parsed::Block(nodes, next) => {
                                lemma_source_push(parsed, Node::Loop(body));
                                lemma_text_split(tokens, start, start + 1, mid);
                                lemma_text_split(tokens, start, mid, next);
                                let inner = text_of(tokens.subrange(start + 1, mid));
                                assert(source_of(Seq::<Node>::empty()) + inner == inner);
                                assert(source_of(body) + seq![']'] == inner);
                                assert(source_of_node(Node::Loop(body)) == seq!['['] + inner) by {
                                    assert(seq!['['] + source_of(body) + seq![']'] == seq!['['] + (
                                    source_of(body) + seq![']']));
                                }
                                assert(source_of(grown) == source_of(parsed) + text_of(
                                    tokens.subrange(start, mid),
                                ));
                                assert(source_of(parsed) + text_of(tokens.subrange(start, mid))
                                    + text_of(tokens.subrange(mid, next)) == source_of(parsed) + (
                                text_of(tokens.subrange(start, mid)) + text_of(
                                    tokens.subrange(mid, next),
                                )));
                            },
                        }
                    },
                }
            },
            Token::LoopEnd(_) => {},
            Token::ProgramEnd => {
                if level == 0 {
                    lemma_parse_level_text(tokens, start + 1, level, parsed);
                    lemma_text_split(tokens, start, start + 1, tokens.len() as int);
                    assert(Seq::<char>::empty() + text_of(
                        tokens.subrange(start + 1, tokens.len() as int),
                    ) == text_of(tokens.subrange(start + 1, tokens.len() as int)));
                }
            },
            Token::ProgramStart => {
                lemma_parse_level_text(tokens, start + 1, level, parsed);
                match parse_level(tokens, start + 1, level, parsed) {
                    Parsed::Failed(_) => {},
                    Parsed::Block(nodes, next) => {
                        lemma_text_split(tokens, start, start + 1, next);
                        assert(Seq::<char>::empty() + text_of(tokens.subrange(start + 1, next))
                            == text_of(tokens.subrange(start + 1, next)));
                    },
                }
            },
            token => {
                let node = unit_node(token).unwrap();
                let grown = parsed.push(node);
                lemma_parse_level_text(tokens, start + 1, level, grown);
                match parse_level(tokens, start + 1, level, grown) {
                    Parsed::Failed(_) => {},
                    Parsed::Block(nodes, next) => {
                        lemma_source_push(parsed, node);
                        lemma_text_split(tokens, start, start + 1, next);
                        assert(source_of_node(node) =~= seq![symbol(token).unwrap()]);
                        assert(source_of(parsed) + seq![symbol(token).unwrap()] + text_of(
                            tokens.subrange(start + 1, next),
                        ) == source_of(parsed) + (seq![symbol(token).unwrap()] + text_of(
                            tokens.subrange(start + 1, next),
                        )));
                    },
                }
            },
        }
    }
}

/// Parsing inverts printing: the tree that the parser builds from the
/// tokens of a program prints back to the program's instruction characters.
pub proof fn lemma_parse_prints_back(program: Seq<char>)
    ensures
        parse_spec(tokenize_spec(program)) matches Ok(tree) ==> source_of(tree) == instructions(
            program,
        ),
{
    let tokens = tokenize_spec(program);
    lemma_text_of_tokens(program);
    lemma_parse_level_text(tokens, 0, 0, Seq::empty());
    assert(tokens.subrange(0, tokens.len() as int) == tokens);
    match parse_level(tokens, 0, 0, Seq::empty()) {
        Parsed::Block(tree, _) => {
            assert(source_of(tree) + Seq::<char>::empty() == source_of(tree));
            assert(source_of(Seq::<Node>::empty()) + text_of(tokens) == text_of(tokens));
        },
        Parsed::Failed(_) => {},
    }
}

/// A node that absorbed a unit step prints as the node and the step.
proof fn lemma_source_bumped(top: Node, incoming: Node)
    requires
        absorbs(top, incoming),
    ensures
        source_of_node(bumped(top)) == source_of_node(top) + source_of_node(incoming),
{
    match top {
        Node::IncValue(n) => {
            assert(incoming == Node::IncValue(1));
            assert(source_of_node(Node::IncValue((n + 1) as u32)) =~= source_of_node(top)
                + source_of_node(incoming));
        },
        Node::DecValue(n) => {
            assert(incoming == Node::DecValue(1));
            assert(source_of_node(Node::DecValue((n + 1) as u32)) =~= source_of_node(top)
                + source_of_node(incoming));
        },
        Node::MoveForward(n) => {
            assert(incoming == Node::MoveForward(1));
            assert(source_of_node(Node::MoveForward((n + 1) as usize)) =~= source_of_node(top)
                + source_of_node(incoming));
        },
        Node::MoveBack(n) => {
            assert(incoming == Node::MoveBack(1));
            assert(source_of_node(Node::MoveBack((n + 1) as usize)) =~= source_of_node(top)
                + source_of_node(incoming));
        },
        _ => {},
    }
}

/// Optimizing keeps the source text: the optimized tree prints as the tree
/// does.
pub proof fn lemma_optimize_keeps_source(nodes: Seq<Node>)
    ensures
        source_of(optimize_spec(nodes)) == source_of(nodes),
    decreases nodes,
{
    if nodes.len() > 0 {
        let rest = nodes.drop_last();
        let last = nodes.last();
        let folded = optimize_spec(rest);
        let result = optimize_spec(nodes);
        lemma_optimize_keeps_source(rest);
        assert(result == fold_step(folded, last));
        assert(source_of(nodes) == source_of(rest) + source_of_node(last));
        match last {
            Node::Loop(body) => {
                lemma_optimize_keeps_source(body);
                let inner = Node::Loop(optimize_spec(body));
                assert(result == folded.push(inner));
                lemma_source_push(folded, inner);
                assert(source_of_node(inner) == source_of_node(last));
            },
            _ => {
                if folded.len() > 0 && absorbs(folded.last(), last) {
                    let top = folded.last();
                    let front = folded.drop_last();
                    assert(result == front.push(bumped(top)));
                    assert(front.push(top) == folded);
                    lemma_source_push(front, bumped(top));
                    lemma_source_push(front, top);
                    lemma_source_bumped(top, last);
                    assert(source_of(front) + (source_of_node(top) + source_of_node(last)) == (
                    source_of(front) + source_of_node(top)) + source_of_node(last));
                } else {
                    assert(result == folded.push(last));
                    lemma_source_push(folded, last);
                }
            },
        }
    }
}

/// From source text to optimized tree, nothing is lost: the optimized tree
/// of a program prints back to the program's instruction characters.
pub proof fn lemma_front_end_prints_back(program: Seq<char>)
    ensures
        parse_spec(tokenize_spec(program)) matches Ok(tree) ==> source_of(optimize_spec(tree))
            == instructions(program),
{
    lemma_parse_prints_back(program);
    match parse_spec(tokenize_spec(program)) {
        Ok(tree) => {
            lemma_optimize_keeps_source(tree);
        },
        Err(_) => {},
    }
}

} // verus!
