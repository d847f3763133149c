use robdd::parser::{
    convert_rpn, create_session, parse_expr, tokenize, Operator, ParseError, Token,
};

#[test]
fn token_simple() {
    let expected: Result<Vec<Token>, ParseError> = Ok(vec![
        Token::VAR('a'),
        Token::OP(Operator::AND),
        Token::VAR('b'),
    ]);
    assert_eq!(expected, tokenize(&String::from("a & b")))
}

#[test]
fn token_fail() {
    assert!(tokenize(&String::from("@ ^ $")).is_err())
}

#[test]
fn rpn_not() {
    let expected: Vec<Token> = vec![
        Token::VAR('a'),
        Token::OP(Operator::NOT),
        Token::VAR('b'),
        Token::OP(Operator::AND),
    ];
    let input = tokenize(&String::from("~a & b")).expect("tokenize step failed");
    assert_eq!(Ok(expected), convert_rpn(&input))
}

#[test]
fn rpn_complex() {
    let expected: Vec<Token> = vec![
        Token::VAR('a'),
        Token::VAR('b'),
        Token::OP(Operator::AND),
        Token::VAR('c'),
        Token::VAR('d'),
        Token::VAR('e'),
        Token::OP(Operator::AND),
        Token::OP(Operator::XOR),
        Token::OP(Operator::NOT),
        Token::OP(Operator::OR),
    ];
    let input = tokenize(&String::from("(a & b) | ~(c ^ (d & e))")).unwrap();
    assert_eq!(Ok(expected), convert_rpn(&input))
}

#[test]
fn rpn_left_paren_unclosed() {
    let input = tokenize(&String::from("(a & b")).expect("tokenize step failed");
    assert!(convert_rpn(&input).is_err())
}

#[test]
fn rpn_right_paren_unclosed() {
    let input = tokenize(&String::from("a & b)")).expect("tokenize step failed");
    assert!(convert_rpn(&input).is_err())
}

#[test]
fn paren_errors_are_distinguished() {
    let left = tokenize(&String::from("(a")).unwrap();
    assert_eq!(convert_rpn(&left), Err(ParseError::UnclosedLeftParen));
    let right = tokenize(&String::from("a)")).unwrap();
    assert_eq!(convert_rpn(&right), Err(ParseError::UnclosedRightParen));
    assert_eq!(
        tokenize(&String::from("a & 1")),
        Err(ParseError::InvalidCharacter('1'))
    );
}

#[test]
fn parse_expr_combines_both_stages() {
    let parsed = parse_expr(&String::from("a | !b")).unwrap();
    assert_eq!(
        parsed.tokens,
        vec![
            Token::VAR('a'),
            Token::OP(Operator::OR),
            Token::OP(Operator::NOT),
            Token::VAR('b'),
        ]
    );
    assert_eq!(
        parsed.rpn,
        vec![
            Token::VAR('a'),
            Token::VAR('b'),
            Token::OP(Operator::NOT),
            Token::OP(Operator::OR),
        ]
    );
}

#[test]
fn session_orders_variables_first_seen() {
    let parser = create_session(vec![
        String::from("b & a"),
        String::from("c | a"),
    ])
    .unwrap();
    assert_eq!(parser.raw_exprs.len(), 2);
    assert_eq!(parser.exprs.len(), 2);
    // first-seen order: b, a, then c
    assert_eq!(parser.ast_order.get(&'b'), Some(&0));
    assert_eq!(parser.ast_order.get(&'a'), Some(&1));
    assert_eq!(parser.ast_order.get(&'c'), Some(&2));
    assert_eq!(parser.ast_order.len(), 3);
}

#[test]
fn session_rejects_bad_formula() {
    assert!(create_session(vec![String::from("a ? b")]).is_err());
}
