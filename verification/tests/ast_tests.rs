use robdd::ast::{
    build_ast_session, create_op_node, create_var_node, evaluate_session_seq, get_cases,
    ASTSession, Node,
};
use robdd::parser::{create_session, Operator};

#[test]
fn simple_tree() {
    let expr = vec![String::from("a & b")];
    let session = create_session(expr).unwrap();
    let res = build_ast_session(&session).unwrap();
    let expected_roots = vec![create_op_node(
        Operator::AND,
        create_var_node(0),
        Some(create_var_node(1)),
    )];
    assert_eq!(expected_roots, res.roots)
}

#[test]
fn get_cases_enumerates_canonically() {
    assert_eq!(get_cases(0), vec![Vec::<bool>::new()]);
    assert_eq!(
        get_cases(2),
        vec![
            vec![false, false],
            vec![false, true],
            vec![true, false],
            vec![true, true],
        ]
    );
    assert_eq!(get_cases(4).len(), 16);
}

#[test]
fn evaluate_tree_on_assignment() {
    // (a | b) & !c
    let tree = create_op_node(
        Operator::AND,
        create_op_node(Operator::OR, create_var_node(0), Some(create_var_node(1))),
        Some(create_op_node(Operator::NOT, create_var_node(2), None)),
    );
    assert!(tree.evaluate(&vec![true, false, false]));
    assert!(!tree.evaluate(&vec![true, false, true]));
    assert!(!tree.evaluate(&vec![false, false, false]));
}

#[test]
fn session_verdict_equivalent() {
    let session = create_session(vec![
        String::from("a & b"),
        String::from("b & a"),
    ])
    .unwrap();
    let res = build_ast_session(&session).unwrap();
    assert!(res.all_eq);
    assert!(res.cex.is_empty());
    assert_eq!(res.results.len(), 4);
}

#[test]
fn session_verdict_inequivalent_with_counterexamples() {
    let session = create_session(vec![String::from("a"), String::from("b")]).unwrap();
    let res = build_ast_session(&session).unwrap();
    assert!(!res.all_eq);
    // a and b disagree on exactly two of the four assignments
    assert_eq!(res.cex.len(), 2);
    assert_eq!(res.results.len(), 4);
}

#[test]
fn empty_session_is_not_equivalent() {
    let session = create_session(Vec::new()).unwrap();
    let res = build_ast_session(&session).unwrap();
    assert!(!res.all_eq);
    assert!(res.roots.is_empty());
}

#[test]
fn evaluate_session_matches_tree_values() {
    let roots = vec![create_var_node(0), create_var_node(0)];
    let cases = vec![vec![false], vec![true]];
    let session = ASTSession {
        roots,
        cases,
        results: Vec::new(),
        cex: Vec::new(),
        all_eq: false,
    };
    let res = evaluate_session_seq(session);
    assert_eq!(res.results, vec![vec![false, false], vec![true, true]]);
    assert!(res.all_eq);
    let _ = Node::VAR(robdd::ast::VarNode { val: 0 });
}
