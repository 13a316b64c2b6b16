use bf::{optimize, parse, tokenize, BFEvalError, Expression, InvalidProgramError, Token};

fn chars(source: &str) -> Vec<char> {
    source.chars().collect()
}

fn tree(source: &str) -> Vec<Expression> {
    parse(&tokenize(&chars(source))).unwrap()
}

#[test]
fn tokenize_skips_comment_characters() {
    assert_eq!(
        tokenize(&chars("a+b")),
        vec![Token::ProgramStart, Token::IncValue(1), Token::ProgramEnd]
    );
}

#[test]
fn tokenize_empty_source_gives_only_sentinels() {
    assert_eq!(tokenize(&chars("")), vec![Token::ProgramStart, Token::ProgramEnd]);
    assert_eq!(tokenize(&chars("hello world\n")), vec![Token::ProgramStart, Token::ProgramEnd]);
}

#[test]
fn tokenize_maps_each_instruction_with_its_offset() {
    assert_eq!(
        tokenize(&chars("[]><+-.,")),
        vec![
            Token::ProgramStart,
            Token::LoopStart(0),
            Token::LoopEnd(1),
            Token::MoveForward(2),
            Token::MoveBack(3),
            Token::IncValue(4),
            Token::DecValue(5),
            Token::OutputValue(6),
            Token::InputValue(7),
            Token::ProgramEnd,
        ]
    );
}

#[test]
fn tokenize_positions_are_source_offsets() {
    let tokens = tokenize(&chars("x+ y- z."));
    assert_eq!(
        tokens,
        vec![
            Token::ProgramStart,
            Token::IncValue(1),
            Token::DecValue(4),
            Token::OutputValue(7),
            Token::ProgramEnd,
        ]
    );
    assert!(tokens.len() <= "x+ y- z.".len() + 2);
}

#[test]
fn tokenize_counts_offsets_in_characters() {
    assert_eq!(
        tokenize(&chars("é+")),
        vec![Token::ProgramStart, Token::IncValue(1), Token::ProgramEnd]
    );
}

#[test]
fn parse_unclosed_loop_fails() {
    assert_eq!(
        parse(&tokenize(&chars("["))),
        Err(InvalidProgramError::ExcessiveOpeningBrackets(0))
    );
}

#[test]
fn parse_unclosed_loop_reports_position_zero() {
    assert_eq!(
        parse(&tokenize(&chars("+++[[]"))),
        Err(InvalidProgramError::ExcessiveOpeningBrackets(0))
    );
}

#[test]
fn parse_stray_closing_bracket_fails() {
    assert_eq!(
        parse(&tokenize(&chars("]"))),
        Err(InvalidProgramError::UnexpectedClosingBracket(0))
    );
}

#[test]
fn parse_stray_closing_bracket_reports_its_position() {
    assert_eq!(
        parse(&tokenize(&chars("+[-] ]"))),
        Err(InvalidProgramError::UnexpectedClosingBracket(5))
    );
}

#[test]
fn parse_reports_the_first_error() {
    assert_eq!(
        parse(&tokenize(&chars("][["))),
        Err(InvalidProgramError::UnexpectedClosingBracket(0))
    );
    assert_eq!(
        parse(&tokenize(&chars("[[]]]["))),
        Err(InvalidProgramError::UnexpectedClosingBracket(4))
    );
}

#[test]
fn parse_nested_loops() {
    assert_eq!(
        parse(&tokenize(&chars("[[]]"))),
        Ok(vec![Expression::Loop(vec![Expression::Loop(vec![])])])
    );
}

#[test]
fn parse_gives_unit_nodes() {
    assert_eq!(
        tree("+-><.,"),
        vec![
            Expression::IncValue(1),
            Expression::DecValue(1),
            Expression::MoveForward(1),
            Expression::MoveBack(1),
            Expression::OutputValue,
            Expression::InputValue,
        ]
    );
}

#[test]
fn parse_keeps_order_around_loops() {
    assert_eq!(
        tree("+[-[>]<]."),
        vec![
            Expression::IncValue(1),
            Expression::Loop(vec![
                Expression::DecValue(1),
                Expression::Loop(vec![Expression::MoveForward(1)]),
                Expression::MoveBack(1),
            ]),
            Expression::OutputValue,
        ]
    );
}

#[test]
fn parse_empty_program() {
    assert_eq!(parse(&tokenize(&chars(""))), Ok(vec![]));
    assert_eq!(parse(&vec![]), Ok(vec![]));
}

#[test]
fn parse_passes_over_sentinels_at_level_zero() {
    let tokens = vec![
        Token::ProgramStart,
        Token::IncValue(0),
        Token::ProgramEnd,
        Token::ProgramStart,
        Token::DecValue(1),
    ];
    assert_eq!(parse(&tokens), Ok(vec![Expression::IncValue(1), Expression::DecValue(1)]));
}

#[test]
fn parse_ends_an_open_loop_where_the_tokens_end() {
    assert_eq!(
        parse(&vec![Token::LoopStart(0), Token::IncValue(1)]),
        Ok(vec![Expression::Loop(vec![Expression::IncValue(1)])])
    );
}

#[test]
fn optimize_folds_a_run() {
    assert_eq!(optimize(&tree("+++")), vec![Expression::IncValue(3)]);
    assert_eq!(optimize(&tree("----")), vec![Expression::DecValue(4)]);
    assert_eq!(optimize(&tree(">>")), vec![Expression::MoveForward(2)]);
    assert_eq!(optimize(&tree("<<<<<")), vec![Expression::MoveBack(5)]);
}

#[test]
fn optimize_does_not_merge_across_kinds() {
    assert_eq!(
        optimize(&tree("><")),
        vec![Expression::MoveForward(1), Expression::MoveBack(1)]
    );
    assert_eq!(
        optimize(&tree("++--++")),
        vec![Expression::IncValue(2), Expression::DecValue(2), Expression::IncValue(2)]
    );
}

#[test]
fn optimize_never_merges_input_and_output() {
    assert_eq!(
        optimize(&tree("..,,")),
        vec![
            Expression::OutputValue,
            Expression::OutputValue,
            Expression::InputValue,
            Expression::InputValue,
        ]
    );
}

#[test]
fn optimize_folds_inside_loops() {
    assert_eq!(
        optimize(&tree("++[>>[--]<<][]")),
        vec![
            Expression::IncValue(2),
            Expression::Loop(vec![
                Expression::MoveForward(2),
                Expression::Loop(vec![Expression::DecValue(2)]),
                Expression::MoveBack(2),
            ]),
            Expression::Loop(vec![]),
        ]
    );
}

#[test]
fn optimize_does_not_merge_across_a_loop() {
    assert_eq!(
        optimize(&tree("+[]+")),
        vec![Expression::IncValue(1), Expression::Loop(vec![]), Expression::IncValue(1)]
    );
}

#[test]
fn optimize_is_idempotent() {
    for source in ["", "+++", "><", "++[>>[--]<<]..,,--", "+[-]+[[-]>]<<<"] {
        let once = optimize(&tree(source));
        assert_eq!(optimize(&once), once);
    }
}

#[test]
fn optimize_merges_only_incoming_unit_nodes() {
    assert_eq!(
        optimize(&vec![Expression::IncValue(1), Expression::IncValue(2)]),
        vec![Expression::IncValue(1), Expression::IncValue(2)]
    );
    assert_eq!(
        optimize(&vec![Expression::IncValue(2), Expression::IncValue(1)]),
        vec![Expression::IncValue(3)]
    );
    assert_eq!(
        optimize(&vec![Expression::MoveBack(7), Expression::MoveBack(1), Expression::MoveBack(1)]),
        vec![Expression::MoveBack(9)]
    );
}

#[test]
fn optimize_leaves_a_full_count_alone() {
    assert_eq!(
        optimize(&vec![Expression::IncValue(u32::MAX), Expression::IncValue(1)]),
        vec![Expression::IncValue(u32::MAX), Expression::IncValue(1)]
    );
    assert_eq!(
        optimize(&vec![
            Expression::MoveForward(usize::MAX),
            Expression::MoveForward(1),
            Expression::MoveForward(1),
        ]),
        vec![Expression::MoveForward(usize::MAX), Expression::MoveForward(2)]
    );
}

#[test]
fn optimize_leaves_its_argument_untouched() {
    let source = tree("++[--]");
    let copy = source.clone();
    let _ = optimize(&source);
    assert_eq!(source, copy);
}

#[test]
fn clone_copies_the_whole_tree() {
    let source = tree("+[-[>.,]<]");
    assert_eq!(source.clone(), source);
    let node = Expression::Loop(vec![Expression::Loop(vec![Expression::IncValue(4)])]);
    assert_eq!(node.clone(), node);
}

#[test]
fn invalid_program_converts_to_eval_error() {
    let error = InvalidProgramError::UnexpectedClosingBracket(7);
    assert_eq!(BFEvalError::from(error), BFEvalError::InvalidProgramError(error));
    let result: Result<Vec<Expression>, BFEvalError> =
        parse(&tokenize(&chars("["))).map_err(BFEvalError::from);
    assert_eq!(
        result,
        Err(BFEvalError::InvalidProgramError(InvalidProgramError::ExcessiveOpeningBrackets(0)))
    );
}

#[test]
fn parse_succeeds_exactly_on_matched_brackets() {
    for source in ["", "[]", "[][]", "[[][]]", "+[>[-]<]."] {
        assert!(parse(&tokenize(&chars(source))).is_ok());
    }
    for source in ["[", "]", "][", "[]]", "[[]", "[]][", "+[>[-]<."] {
        assert!(parse(&tokenize(&chars(source))).is_err());
    }
}

#[test]
fn optimize_output_has_no_mergeable_neighbours() {
    let folded = optimize(&tree("+++--->>><<<++[++--]--"));
    assert_eq!(
        folded,
        vec![
            Expression::IncValue(3),
            Expression::DecValue(3),
            Expression::MoveForward(3),
            Expression::MoveBack(3),
            Expression::IncValue(2),
            Expression::Loop(vec![Expression::IncValue(2), Expression::DecValue(2)]),
            Expression::DecValue(2),
        ]
    );
}
