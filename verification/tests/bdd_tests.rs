use robdd::bdd::{eval_expr, sub_constant, BDDSession};
use robdd::parser::{create_session, Operator, Token};

#[test]
fn simple_one_var() {
    let ordering = vec!['a'];
    let rpn = vec![Token::VAR('a')];
    let mut bdd = BDDSession::init_test(1);
    bdd.build(&rpn, &ordering).unwrap();
}

#[test]
fn bin_op() {
    let ordering = vec!['a', 'b'];
    let rpn = vec![
        Token::VAR('b'),
        Token::VAR('a'),
        Token::OP(Operator::OR),
    ];
    let mut bdd = BDDSession::init_test(2);
    bdd.build(&rpn, &ordering).unwrap();
}

#[test]
fn equiv() {
    let ordering = vec!['a', 'b'];
    let rpn1 = vec![
        Token::VAR('b'),
        Token::VAR('a'),
        Token::OP(Operator::OR),
        Token::OP(Operator::NOT),
    ];
    let rpn2 = vec![
        Token::VAR('b'),
        Token::OP(Operator::NOT),
        Token::VAR('a'),
        Token::OP(Operator::NOT),
        Token::OP(Operator::AND),
    ];
    let mut bdd = BDDSession::init_test(2);
    bdd.build(&rpn1, &ordering).unwrap();
    bdd.build(&rpn2, &ordering).unwrap();
    assert_eq!(bdd.roots[0], bdd.roots[1])
}

#[test]
fn canonicity_distributivity() {
    // (a & b) | (a & c) against a & (b | c): same function, same vertex
    let parser = create_session(vec![
        String::from("(a & b) | (a & c)"),
        String::from("a & (b | c)"),
    ])
    .unwrap();
    let session = BDDSession::init(&parser).unwrap();
    assert_eq!(session.roots.len(), 2);
    assert_eq!(session.roots[0], session.roots[1]);
}

#[test]
fn canonicity_de_morgan() {
    let parser = create_session(vec![
        String::from("a & b"),
        String::from("!(!a | !b)"),
    ])
    .unwrap();
    let session = BDDSession::init(&parser).unwrap();
    assert_eq!(session.roots[0], session.roots[1]);
}

#[test]
fn inequivalent_formulas_get_distinct_roots() {
    let parser = create_session(vec![String::from("a"), String::from("b")]).unwrap();
    let session = BDDSession::init(&parser).unwrap();
    assert_ne!(session.roots[0], session.roots[1]);
}

#[test]
fn eval_expr_constant_streams() {
    let t = Token::VAL(true);
    let f = Token::VAL(false);
    assert_eq!(eval_expr(&vec![t, f, Token::OP(Operator::AND)]), Ok(false));
    assert_eq!(eval_expr(&vec![t, f, Token::OP(Operator::OR)]), Ok(true));
    assert_eq!(eval_expr(&vec![t, t, Token::OP(Operator::XOR)]), Ok(false));
    assert_eq!(eval_expr(&vec![t, Token::OP(Operator::NOT)]), Ok(false));
    assert!(eval_expr(&vec![Token::OP(Operator::NOT)]).is_err());
    assert!(eval_expr(&vec![t, t]).is_err());
    assert!(eval_expr(&vec![Token::VAR('a')]).is_err());
    assert!(eval_expr(&Vec::new()).is_err());
}

#[test]
fn sub_constant_replaces_only_named_variable() {
    let stream = vec![
        Token::VAR('a'),
        Token::VAR('b'),
        Token::OP(Operator::AND),
    ];
    let substituted = sub_constant(&stream, 'a', true);
    assert_eq!(
        substituted,
        vec![
            Token::VAL(true),
            Token::VAR('b'),
            Token::OP(Operator::AND),
        ]
    );
}
