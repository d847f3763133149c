use linked_hash_map::LinkedHashMap;
use robdd::areabdd::BddError;
use robdd::expr_builder::{
    build, build_ast, create_op_node, create_var_node, evaluate_expr, tokenize, Expr, Operator,
    Token,
};

fn two_vars() -> LinkedHashMap<char, usize> {
    let mut map = LinkedHashMap::new();
    map.insert('a', 0);
    map.insert('b', 1);
    map
}

#[test]
fn resolves_variables_to_ordinals() {
    let map = two_vars();
    let tokens = tokenize(&String::from("a & b"), &map).unwrap();
    assert_eq!(
        tokens,
        vec![Token::VAR(0), Token::OP(Operator::AND), Token::VAR(1)]
    );
    assert_eq!(
        tokenize(&String::from("a & z"), &map),
        Err(BddError::UnknownVariable)
    );
}

#[test]
fn builds_simple_tree() {
    let map = two_vars();
    let expr = build(&String::from("a & b"), &map).unwrap();
    let expected = create_op_node(
        Operator::AND,
        create_var_node(0),
        Some(create_var_node(1)),
    );
    assert_eq!(expr.root, Some(expected));
}

#[test]
fn empty_formula_has_no_root() {
    let map = two_vars();
    let expr = build(&String::from(""), &map).unwrap();
    assert_eq!(expr.root, None);
}

#[test]
fn negation_applies_before_binary_operator() {
    let map = two_vars();
    let expr = build(&String::from("~a | b"), &map).unwrap();
    assert!(!evaluate_expr(&expr, &vec![true, false]));
    assert!(evaluate_expr(&expr, &vec![false, false]));
    assert!(evaluate_expr(&expr, &vec![true, true]));
}

#[test]
fn missing_operand_is_reported() {
    let tokens = vec![Token::VAR(0), Token::OP(Operator::AND)];
    let res = build_ast(Expr { tokens, root: None });
    assert_eq!(res.err(), Some(BddError::UnbalancedExpression));
}
