use linked_hash_map::LinkedHashMap;
use robdd::areabdd::{
    add_var, apply, build, build_helper, dec_ref, get_const_id, get_id_bool, inc_ref, make,
    satisfy_count, BddError, Expr, Vertex, BDD,
};
use robdd::parser::{create_session, Operator, Token};

#[test]
fn make_node_simple() {
    let mut expected = BDD::new();
    let mut actual = BDD::new();

    let var = 1;
    let lo = 1;
    let hi = -1;

    expected.nodes.push(Vertex {
        var,
        lo: -lo,
        hi: -hi,
    });
    expected.ref_counts.push(1);

    let actual_id = make(&mut actual, var, lo, hi).unwrap();
    assert!(-2 == actual_id);
    assert!(expected == actual);
}

#[test]
fn apply_test() {
    let mut actual = BDD::new();

    make(&mut actual, 1, -1, 1).unwrap();
    make(&mut actual, 2, -1, 1).unwrap();
    let mut expected = actual.clone();

    expected.nodes.push(Vertex {
        var: 1,
        lo: -1,
        hi: 3,
    });
    expected
        .computed_cache
        .push((Expr { op: Operator::AND, lhs: 2, rhs: 3 }, 4));
    expected.ref_counts[1] = 0;
    expected.ref_counts[2] = 2;
    expected.ref_counts.push(1);
    expected.dead_count = 1;

    let actual_id = apply(&mut actual, &Operator::AND, 2, 3).unwrap();
    assert!(expected == actual);
    assert!(4 == actual_id);
}

#[test]
fn apply_xor() {
    let mut actual = BDD::new();

    make(&mut actual, 1, -1, 1).unwrap();
    make(&mut actual, 2, -1, 1).unwrap();
    let mut expected = actual.clone();

    expected.nodes.push(Vertex {
        var: 1,
        lo: -3,
        hi: 3,
    });
    expected
        .computed_cache
        .push((Expr { op: Operator::XOR, lhs: -2, rhs: 3 }, 4));
    expected.ref_counts[1] = 0;
    expected.ref_counts[2] = 3;
    expected.ref_counts.push(1);
    expected.dead_count = 1;

    let actual_id = apply(&mut actual, &Operator::XOR, -2, 3).unwrap();
    assert_eq!(expected, actual);
    assert!(4 == actual_id);
}

#[test]
fn apply_returns_complemented() {
    let mut actual = BDD::new();

    make(&mut actual, 1, -1, 1).unwrap();
    make(&mut actual, 2, -1, 1).unwrap();
    let mut expected = actual.clone();

    expected.nodes.push(Vertex {
        var: 1,
        lo: -3,
        hi: 3,
    });
    expected
        .computed_cache
        .push((Expr { op: Operator::XOR, lhs: 2, rhs: 3 }, -4));
    expected.ref_counts[1] = 0;
    expected.ref_counts[2] = 3;
    expected.ref_counts.push(1);
    expected.dead_count = 1;

    let actual_id = apply(&mut actual, &Operator::XOR, 2, 3).unwrap();
    assert_eq!(expected, actual);
    assert!(-4 == actual_id);
}

#[test]
fn build_simple_test() {
    let eq = vec![
        Token::VAR('a'),
        Token::VAR('b'),
        Token::OP(Operator::AND),
        Token::OP(Operator::NOT),
    ];
    let mut order: LinkedHashMap<char, usize> = LinkedHashMap::new();

    order.insert('a', 0);
    order.insert('b', 1);

    let mut actual_bdd = BDD::new();

    let mut expected_bdd = actual_bdd.clone();
    let lhs = make(&mut expected_bdd, 1, -1, 1).unwrap();
    let rhs = make(&mut expected_bdd, 2, -1, 1).unwrap();
    let res = apply(&mut expected_bdd, &Operator::AND, lhs, rhs).unwrap();
    expected_bdd.roots.push(-res);

    build_helper(&mut actual_bdd, &eq, &order).unwrap();
    assert_eq!(actual_bdd, expected_bdd);
}

#[test]
fn terminal_helpers() {
    assert_eq!(get_const_id(true), 1);
    assert_eq!(get_const_id(false), -1);
    assert!(get_id_bool(1));
    assert!(!get_id_bool(-1));
    assert!(!get_id_bool(7));
}

#[test]
fn make_reduction_returns_child_unchanged() {
    // the reduction rule answers before anything else is examined
    let mut bdd = BDD::new();
    assert_eq!(make(&mut bdd, 1, 1, 1).unwrap(), 1);
    assert_eq!(make(&mut bdd, 1, -1, -1).unwrap(), -1);
    assert_eq!(make(&mut bdd, 3, -7, -7).unwrap(), -7);
    // no vertex was created by any of these calls
    assert_eq!(bdd.nodes.len(), 1);
    assert_eq!(bdd, BDD::new());
}

#[test]
fn make_hash_consing_hit_shares_vertex() {
    let mut bdd = BDD::new();
    let first = make(&mut bdd, 1, -1, 1).unwrap();
    let second = make(&mut bdd, 1, -1, 1).unwrap();
    assert_eq!(first, second);
    assert_eq!(bdd.nodes.len(), 2);
    // the hit re-incremented the count
    assert_eq!(bdd.ref_counts[1], 2);
}

#[test]
fn store_never_holds_negative_hi() {
    // complement normalization over a mix of constructions
    let mut bdd = BDD::new();
    let a = make(&mut bdd, 2, -1, 1).unwrap();
    let b = make(&mut bdd, 1, a, -a).unwrap();
    make(&mut bdd, 1, -1, -a).unwrap();
    let d = make(&mut bdd, 1, -1, 1).unwrap();
    apply(&mut bdd, &Operator::AND, d, a).unwrap();
    for v in bdd.nodes.iter().skip(1) {
        assert!(v.hi > 0);
    }
    // a function and its complement share one vertex, with opposite signs
    let e = make(&mut bdd, 1, -a, a).unwrap();
    assert_eq!(e, -b);
}

#[test]
fn apply_idempotence_and_complement_laws() {
    let mut bdd = BDD::new();
    let x = make(&mut bdd, 1, -1, 1).unwrap();
    assert_eq!(apply(&mut bdd, &Operator::AND, x, x).unwrap(), x);
    assert_eq!(apply(&mut bdd, &Operator::OR, x, x).unwrap(), x);
    assert_eq!(apply(&mut bdd, &Operator::OR, -x, -x).unwrap(), -x);
    assert_eq!(apply(&mut bdd, &Operator::XOR, x, x).unwrap(), -1);
    assert_eq!(apply(&mut bdd, &Operator::AND, x, -x).unwrap(), -1);
    assert_eq!(apply(&mut bdd, &Operator::OR, x, -x).unwrap(), 1);
    // terminal operands follow the truth table
    assert_eq!(apply(&mut bdd, &Operator::OR, 1, 1).unwrap(), 1);
    assert_eq!(apply(&mut bdd, &Operator::OR, -1, -1).unwrap(), -1);
    assert_eq!(apply(&mut bdd, &Operator::AND, 1, -1).unwrap(), -1);
}

#[test]
fn apply_terminal_absorption() {
    let mut bdd = BDD::new();
    let x = make(&mut bdd, 1, -1, 1).unwrap();
    assert_eq!(apply(&mut bdd, &Operator::AND, 1, x).unwrap(), x);
    assert_eq!(apply(&mut bdd, &Operator::OR, -1, x).unwrap(), x);
    assert_eq!(apply(&mut bdd, &Operator::AND, -1, x).unwrap(), -1);
    assert_eq!(apply(&mut bdd, &Operator::OR, 1, x).unwrap(), 1);
    assert_eq!(apply(&mut bdd, &Operator::AND, 1, -x).unwrap(), -x);
    assert_eq!(apply(&mut bdd, &Operator::OR, -1, -x).unwrap(), -x);
    assert_eq!(apply(&mut bdd, &Operator::AND, -1, -x).unwrap(), -1);
    assert_eq!(apply(&mut bdd, &Operator::OR, 1, -x).unwrap(), 1);
    assert_eq!(apply(&mut bdd, &Operator::XOR, 1, -x).unwrap(), x);
    assert_eq!(apply(&mut bdd, &Operator::XOR, -1, -x).unwrap(), -x);
}

#[test]
fn apply_rejects_unary_not() {
    let mut bdd = BDD::new();
    let x = make(&mut bdd, 1, -1, 1).unwrap();
    assert_eq!(
        apply(&mut bdd, &Operator::NOT, x, 1),
        Err(BddError::NotInBinaryApply)
    );
}

#[test]
fn apply_rejects_missing_vertex() {
    let mut bdd = BDD::new();
    assert_eq!(
        apply(&mut bdd, &Operator::AND, 99, 1),
        Err(BddError::MissingVertex)
    );
    assert_eq!(inc_ref(&mut bdd, 0), Err(BddError::MissingVertex));
}

#[test]
fn add_var_registers_and_rejects_duplicates() {
    let mut bdd = BDD::new();
    add_var(&mut bdd, 'a').unwrap();
    add_var(&mut bdd, 'b').unwrap();
    assert_eq!(bdd.ordering, vec!['a', 'b']);
    // each variable's elementary vertex became a root
    assert_eq!(bdd.roots.len(), 2);
    assert_eq!(bdd.nodes[(bdd.roots[0] - 1) as usize].var, 1);
    assert_eq!(bdd.nodes[(bdd.roots[1] - 1) as usize].var, 2);
    assert_eq!(add_var(&mut bdd, 'a'), Err(BddError::DuplicateVariable));
    assert_eq!(bdd.ordering, vec!['a', 'b']);
}

#[test]
fn reference_accounting_after_full_dereference() {
    let mut bdd = BDD::new();
    let a = make(&mut bdd, 1, -1, 1).unwrap();
    let b = make(&mut bdd, 2, -1, 1).unwrap();
    let conj = apply(&mut bdd, &Operator::AND, a, b).unwrap();
    // the left operand was consumed by the expansion
    assert_eq!(bdd.dead_count, 1);
    dec_ref(&mut bdd, conj).unwrap();
    let dead = bdd
        .ref_counts
        .iter()
        .skip(1)
        .filter(|c| **c == 0)
        .count();
    // every death was counted exactly once
    assert_eq!(bdd.dead_count, dead);
    assert_eq!(bdd.dead_count, 2);
}

#[test]
fn dec_ref_underflow_is_reported() {
    let mut bdd = BDD::new();
    let a = make(&mut bdd, 1, -1, 1).unwrap();
    dec_ref(&mut bdd, a).unwrap();
    assert_eq!(dec_ref(&mut bdd, a), Err(BddError::RefCountUnderflow));
}

#[test]
fn build_reports_usage_errors() {
    let parser = create_session(vec![String::from("a & b")]).unwrap();
    let mut bdd = BDD::new();
    let unknown = vec![Token::VAR('z')];
    assert_eq!(
        build_helper(&mut bdd, &unknown, &parser.ast_order),
        Err(BddError::UnknownVariable)
    );
    let empty: Vec<Token> = Vec::new();
    assert_eq!(
        build_helper(&mut bdd, &empty, &parser.ast_order),
        Err(BddError::EmptyExpression)
    );
    let unbalanced = vec![Token::VAR('a'), Token::OP(Operator::AND)];
    assert_eq!(
        build_helper(&mut bdd, &unbalanced, &parser.ast_order),
        Err(BddError::UnbalancedExpression)
    );
    let leftover = vec![Token::VAR('a'), Token::VAR('b')];
    assert_eq!(
        build_helper(&mut bdd, &leftover, &parser.ast_order),
        Err(BddError::UnbalancedExpression)
    );
    let stray = vec![Token::LParen];
    assert_eq!(
        build_helper(&mut bdd, &stray, &parser.ast_order),
        Err(BddError::UnexpectedToken)
    );
    // nothing was registered by any failing stream
    assert!(bdd.roots.is_empty());
}

#[test]
fn commutativity_shares_roots() {
    // two commuted formulas compile to the identical signed edge
    let parser = create_session(vec![String::from("a ^ b"), String::from("b ^ a")]).unwrap();
    let mut bdd = BDD::new();
    build(&mut bdd, &parser).unwrap();
    assert_eq!(bdd.roots.len(), 2);
    assert_eq!(bdd.roots[0], bdd.roots[1]);
}

#[test]
fn shared_subformula_created_once() {
    let parser1 = create_session(vec![String::from("a & b")]).unwrap();
    let mut bdd1 = BDD::new();
    build(&mut bdd1, &parser1).unwrap();
    let size_after_first = bdd1.nodes.len();

    let parser2 = create_session(vec![String::from("a & b"), String::from("a & b")]).unwrap();
    let mut bdd2 = BDD::new();
    build(&mut bdd2, &parser2).unwrap();
    // the second build found every vertex in the table
    assert_eq!(bdd2.nodes.len(), size_after_first);
    assert_eq!(bdd2.roots[0], bdd2.roots[1]);
}

#[test]
fn satisfy_count_matches_brute_force() {
    let mut bdd = BDD::new();
    add_var(&mut bdd, 'a').unwrap();
    add_var(&mut bdd, 'b').unwrap();
    let a = bdd.roots[0];
    let b = bdd.roots[1];
    let conj = apply(&mut bdd, &Operator::AND, a, b).unwrap();
    assert_eq!(satisfy_count(&bdd, conj), 1);
    let mut bdd2 = BDD::new();
    add_var(&mut bdd2, 'a').unwrap();
    add_var(&mut bdd2, 'b').unwrap();
    let a2 = bdd2.roots[0];
    let b2 = bdd2.roots[1];
    let disj = apply(&mut bdd2, &Operator::OR, a2, b2).unwrap();
    assert_eq!(satisfy_count(&bdd2, disj), 3);
    let mut bdd3 = BDD::new();
    add_var(&mut bdd3, 'a').unwrap();
    add_var(&mut bdd3, 'b').unwrap();
    let a3 = bdd3.roots[0];
    let b3 = bdd3.roots[1];
    let xor = apply(&mut bdd3, &Operator::XOR, a3, b3).unwrap();
    assert_eq!(satisfy_count(&bdd3, xor), 2);
    // constants over two variables
    assert_eq!(satisfy_count(&bdd3, 1), 4);
    assert_eq!(satisfy_count(&bdd3, -1), 0);
}

#[test]
fn xor_with_self_creates_no_vertex() {
    let mut bdd = BDD::new();
    add_var(&mut bdd, 'a').unwrap();
    let e = bdd.roots[0];
    let size_before = bdd.nodes.len();
    assert_eq!(apply(&mut bdd, &Operator::XOR, e, e).unwrap(), -1);
    assert_eq!(bdd.nodes.len(), size_before);
}

#[test]
fn distributivity_shares_roots() {
    // (a & b) | (a & c) and a & (b | c) compile to the identical edge
    let parser = create_session(vec![
        String::from("(a & b) | (a & c)"),
        String::from("a & (b | c)"),
    ])
    .unwrap();
    let mut bdd = BDD::new();
    build(&mut bdd, &parser).unwrap();
    assert_eq!(bdd.roots.len(), 2);
    assert_eq!(bdd.roots[0], bdd.roots[1]);
}

#[test]
fn de_morgan_shares_roots() {
    let parser = create_session(vec![
        String::from("a & b"),
        String::from("!(!a | !b)"),
    ])
    .unwrap();
    let mut bdd = BDD::new();
    build(&mut bdd, &parser).unwrap();
    assert_eq!(bdd.roots[0], bdd.roots[1]);
}

#[test]
fn make_rejects_ordering_violations() {
    let mut bdd = BDD::new();
    let a = make(&mut bdd, 2, -1, 1).unwrap();
    // a variable position below one is never valid
    assert_eq!(make(&mut bdd, 0, -1, 1), Err(BddError::OrderingViolation));
    // a child must reference a strictly later variable than its parent
    assert_eq!(make(&mut bdd, 2, a, 1), Err(BddError::OrderingViolation));
    assert_eq!(make(&mut bdd, 3, a, 1), Err(BddError::OrderingViolation));
    assert!(make(&mut bdd, 1, a, 1).is_ok());
}
