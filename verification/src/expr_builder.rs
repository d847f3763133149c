//! An infix-driven builder of operator trees: formulas are tokenized
//! against an already-shared variable ordering (variables become ordinal
//! references at once), and the tree is assembled with an operator stack.
//! All binary operators share one precedence level here; parentheses and
//! `NOT` group as the stack discipline dictates.

use vstd::prelude::*;

verus! {

use crate::areabdd::BddError;
use crate::ordering_map::{entries_lookup, map_entries, ordering_get};
use linked_hash_map::LinkedHashMap;

/// A Boolean connective. `NOT` is unary; the others are binary.
#[derive(Debug, PartialEq, Eq, Structural, Copy, Clone)]
pub enum Operator {
    AND,
    OR,
    XOR,
    NOT,
}

/// One token of a formula, with variables already resolved to their
/// ordinal in the shared ordering.
#[derive(Debug, PartialEq, Eq, Structural, Copy, Clone)]
pub enum Token {
    VAR(usize),
    LParen,
    RParen,
    OP(Operator),
}

/// One node of the operator tree: a token (a variable ordinal or an
/// operator) with up to two children.
#[derive(Debug, PartialEq)]
pub struct Node {
    pub val: Token,
    pub left: Option<Box<Node>>,
    pub right: Option<Box<Node>>,
}

/// A formula: its resolved token stream and, once built, the root of its
/// operator tree (`None` for an empty formula).
#[derive(Debug, PartialEq)]
pub struct Expr {
    pub tokens: Vec<Token>,
    pub root: Option<Node>,
}

/// A variable leaf.
pub open spec fn spec_var_node(ndx: usize) -> Node {
    Node { val: Token::VAR(ndx), left: None, right: None }
}

/// A negation node.
pub open spec fn spec_not_node(child: Node) -> Node {
    Node { val: Token::OP(Operator::NOT), left: Some(Box::new(child)), right: None }
}

/// A binary node.
pub open spec fn spec_bin_node(op: Operator, l: Node, r: Node) -> Node {
    Node { val: Token::OP(op), left: Some(Box::new(l)), right: Some(Box::new(r)) }
}

/// The token stream of a string against an ordering: spaces are skipped,
/// operator characters map to their tokens, and every other character
/// must be a variable of the shared ordering.
pub open spec fn spec_eb_tokenize_from(
    s: Seq<char>,
    i: int,
    entries: Seq<(char, usize)>,
    acc: Seq<Token>,
) -> Option<Seq<Token>>
    decreases s.len() - i,
{
    if i < 0 || i >= s.len() {
        Some(acc)
    } else {
        let c = s[i];
        if c == ' ' {
            spec_eb_tokenize_from(s, i + 1, entries, acc)
        } else if c == '&' {
            spec_eb_tokenize_from(s, i + 1, entries, acc.push(Token::OP(Operator::AND)))
        } else if c == '|' {
            spec_eb_tokenize_from(s, i + 1, entries, acc.push(Token::OP(Operator::OR)))
        } else if c == '^' {
            spec_eb_tokenize_from(s, i + 1, entries, acc.push(Token::OP(Operator::XOR)))
        } else if c == '!' || c == '~' {
            spec_eb_tokenize_from(s, i + 1, entries, acc.push(Token::OP(Operator::NOT)))
        } else if c == '(' {
            spec_eb_tokenize_from(s, i + 1, entries, acc.push(Token::LParen))
        } else if c == ')' {
            spec_eb_tokenize_from(s, i + 1, entries, acc.push(Token::RParen))
        } else {
            match entries_lookup(entries, c) {
                Some(p) => spec_eb_tokenize_from(s, i + 1, entries, acc.push(Token::VAR(p))),
                None => None,
            }
        }
    }
}

/// The token stream of a whole string.
pub open spec fn spec_eb_tokenize(s: Seq<char>, entries: Seq<(char, usize)>) -> Option<Seq<Token>> {
    spec_eb_tokenize_from(s, 0, entries, Seq::empty())
}

/// What flushing the operator stack does: each stacked operator combines
/// the topmost finished nodes, until something that is not an operator
/// (an opening parenthesis) is on top. Too few operands is an error.
pub open spec fn spec_handle_op(ops: Seq<Token>, nodes: Seq<Node>) -> Option<(Seq<Token>, Seq<Node>)>
    decreases ops.len(),
{
    if ops.len() > 0 && (ops.last() is OP) {
        match ops.last() {
            Token::OP(o) => {
                if o is NOT {
                    if nodes.len() >= 1 {
                        spec_handle_op(
                            ops.drop_last(),
                            nodes.drop_last().push(spec_not_node(nodes.last())),
                        )
                    } else {
                        None
                    }
                } else {
                    if nodes.len() >= 2 {
                        let r = nodes.last();
                        let l = nodes.drop_last().last();
                        spec_handle_op(
                            ops.drop_last(),
                            nodes.drop_last().drop_last().push(spec_bin_node(o, l, r)),
                        )
                    } else {
                        None
                    }
                }
            },
            _ => Some((ops, nodes)),
        }
    } else {
        Some((ops, nodes))
    }
}

/// The stack algorithm of `build_ast`, one token at a time: parentheses
/// and negations are stacked, variables become leaves, a closing
/// parenthesis and every binary operator first flush the stack.
pub open spec fn spec_build_ast_from(
    tokens: Seq<Token>,
    i: int,
    ops: Seq<Token>,
    nodes: Seq<Node>,
) -> Option<(Seq<Token>, Seq<Node>)>
    decreases tokens.len() - i,
{
    if i < 0 || i >= tokens.len() {
        Some((ops, nodes))
    } else {
        match tokens[i] {
            Token::LParen => spec_build_ast_from(tokens, i + 1, ops.push(Token::LParen), nodes),
            Token::OP(Operator::NOT) => spec_build_ast_from(
                tokens,
                i + 1,
                ops.push(Token::OP(Operator::NOT)),
                nodes,
            ),
            Token::VAR(ndx) => spec_build_ast_from(
                tokens,
                i + 1,
                ops,
                nodes.push(spec_var_node(ndx)),
            ),
            Token::RParen => match spec_handle_op(ops, nodes) {
                Some(s) => {
                    let remaining = if s.0.len() > 0 {
                        s.0.drop_last()
                    } else {
                        s.0
                    };
                    spec_build_ast_from(tokens, i + 1, remaining, s.1)
                },
                None => None,
            },
            t => match spec_handle_op(ops, nodes) {
                Some(s) => spec_build_ast_from(tokens, i + 1, s.0.push(t), s.1),
                None => None,
            },
        }
    }
}

/// The root `build_ast` assigns to a non-empty stream: run the stack
/// algorithm, flush what remains, take the topmost node.
pub open spec fn spec_build_ast(tokens: Seq<Token>) -> Option<Node> {
    match spec_build_ast_from(tokens, 0, Seq::empty(), Seq::empty()) {
        Some(s) => {
            let fin = if s.0.len() > 0 {
                spec_handle_op(s.0, s.1)
            } else {
                Some(s)
            };
            match fin {
                Some(f) => if f.1.len() > 0 {
                    Some(f.1.last())
                } else {
                    None
                },
                None => None,
            }
        },
        None => None,
    }
}

impl Node {
    /// Shape and variable validity of a tree: leaves are in-range
    /// variables without children, `NOT` has one child, binary operators
    /// two; parenthesis tokens never appear in a finished tree.
    pub open spec fn wf(self, n: int) -> bool
        decreases self,
    {
        match self.val {
            Token::VAR(ndx) => ndx < n && self.left is None && self.right is None,
            Token::OP(o) => {
                &&& match self.left {
                    Some(l) => l.wf(n),
                    None => false,
                }
                &&& if o is NOT {
                    self.right is None
                } else {
                    match self.right {
                        Some(r) => r.wf(n),
                        None => false,
                    }
                }
            },
            _ => false,
        }
    }

    /// The Boolean value of the tree under an assignment.
    pub open spec fn spec_eval(self, values: Seq<bool>) -> bool
        decreases self,
    {
        match self.val {
            Token::VAR(ndx) => if ndx < values.len() {
                values[ndx as int]
            } else {
                false
            },
            Token::OP(o) => {
                let lv = match self.left {
                    Some(l) => l.spec_eval(values),
                    None => false,
                };
                if o is NOT {
                    !lv
                } else {
                    let rv = match self.right {
                        Some(r) => r.spec_eval(values),
                        None => false,
                    };
                    match o {
                        Operator::AND => lv && rv,
                        Operator::OR => lv || rv,
                        Operator::XOR => lv != rv,
                        Operator::NOT => false,
                    }
                }
            },
            _ => false,
        }
    }

    /// Evaluates the tree under one assignment of the variables.
    pub fn evaluate(&self, values: &Vec<bool>) -> (r: bool)
        requires
            self.wf(values@.len() as int),
        ensures
            r == self.spec_eval(values@),
        decreases *self,
    {
        match &self.val {
            Token::VAR(ndx) => values[*ndx],
            Token::OP(o) => {
                let lv = match &self.left {
                    Some(l) => l.evaluate(values),
                    None => false,
                };
                match o {
                    Operator::NOT => !lv,
                    Operator::AND => match &self.right {
                        Some(r) => lv && r.evaluate(values),
                        None => false,
                    },
                    Operator::OR => match &self.right {
                        Some(r) => lv || r.evaluate(values),
                        None => false,
                    },
                    Operator::XOR => match &self.right {
                        Some(r) => lv != r.evaluate(values),
                        None => false,
                    },
                }
            },
            _ => false,
        }
    }
}

/// A variable leaf.
pub fn create_var_node(val: usize) -> (r: Node)
    ensures
        r == spec_var_node(val),
{
    Node { val: Token::VAR(val), left: None, right: None }
}

/// An operator node over one or two children.
pub fn create_op_node(val: Operator, left: Node, right: Option<Node>) -> (r: Node)
    ensures
        match right {
            Some(rn) => r == spec_bin_node(val, left, rn),
            None => r == (Node { val: Token::OP(val), left: Some(Box::new(left)), right: None }),
        },
{
    let boxed_right = match right {
        Some(n) => Some(Box::new(n)),
        None => None,
    };
    Node { val: Token::OP(val), left: Some(Box::new(left)), right: boxed_right }
}

/// Resolves a formula string to tokens against the shared ordering; a
/// non-operator character that is not in the ordering is a usage error.
pub fn tokenize(input: &String, bool_vars: &LinkedHashMap<char, usize>) -> (r: Result<
    Vec<Token>,
    BddError,
>)
    ensures
        match r {
            Ok(v) => spec_eb_tokenize(input@, map_entries(*bool_vars)) == Some(v@),
            Err(e) => spec_eb_tokenize(input@, map_entries(*bool_vars)) is None && e
                == BddError::UnknownVariable,
        },
{
    let s = input.as_str();
    let n = s.unicode_len();
    let mut tokens: Vec<Token> = Vec::new();
    let mut i: usize = 0;
    while i < n
        invariant
            n == s@.len(),
            s@ == input@,
            0 <= i <= n,
            spec_eb_tokenize_from(input@, i as int, map_entries(*bool_vars), tokens@)
                == spec_eb_tokenize(input@, map_entries(*bool_vars)),
        decreases n - i,
    {
        let c = s.get_char(i);
        match c {
            ' ' => {},
            '&' => tokens.push(Token::OP(Operator::AND)),
            '|' => tokens.push(Token::OP(Operator::OR)),
            '^' => tokens.push(Token::OP(Operator::XOR)),
            '!' | '~' => tokens.push(Token::OP(Operator::NOT)),
            '(' => tokens.push(Token::LParen),
            ')' => tokens.push(Token::RParen),
            c => {
                match ordering_get(bool_vars, c) {
                    Some(p) => tokens.push(Token::VAR(p)),
                    None => {
                        return Err(BddError::UnknownVariable);
                    },
                }
            },
        }
        i = i + 1;
    }
    Ok(tokens)
}

/// Flushes the operator stack onto the node stack (see `spec_handle_op`).
/// Running out of operands reports the malformed stream.
pub fn handle_op(op_stack: &mut Vec<Token>, node_stack: &mut Vec<Node>) -> (r: Result<
    (),
    BddError,
>)
    ensures
        match r {
            Ok(_) => spec_handle_op(old(op_stack)@, old(node_stack)@) == Some(
                (final(op_stack)@, final(node_stack)@),
            ),
            Err(e) => spec_handle_op(old(op_stack)@, old(node_stack)@) is None && e
                == BddError::UnbalancedExpression,
        },
{
    let mut flushing = true;
    while flushing
        invariant
            flushing ==> spec_handle_op(op_stack@, node_stack@) == spec_handle_op(
                old(op_stack)@,
                old(node_stack)@,
            ),
            !flushing ==> spec_handle_op(old(op_stack)@, old(node_stack)@) == Some(
                (op_stack@, node_stack@),
            ),
        decreases op_stack@.len() + (if flushing {
            1int
        } else {
            0int
        }),
    {
        if op_stack.len() == 0 {
            flushing = false;
        } else {
            let top = op_stack[op_stack.len() - 1];
            match top {
                Token::OP(o) => {
                    if matches!(o, Operator::NOT) {
                        let child = match node_stack.pop() {
                            Some(v) => v,
                            None => {
                                return Err(BddError::UnbalancedExpression);
                            },
                        };
                        node_stack.push(create_op_node(o, child, None));
                    } else {
                        let right_child = match node_stack.pop() {
                            Some(v) => v,
                            None => {
                                return Err(BddError::UnbalancedExpression);
                            },
                        };
                        let left_child = match node_stack.pop() {
                            Some(v) => v,
                            None => {
                                return Err(BddError::UnbalancedExpression);
                            },
                        };
                        node_stack.push(create_op_node(o, left_child, Some(right_child)));
                    }
                    let _popped = op_stack.pop();
                },
                _ => {
                    flushing = false;
                },
            }
        }
    }
    Ok(())
}

/// Assembles the operator tree of a tokenized formula. An empty stream
/// yields no root; a stream whose operators run out of operands is a
/// usage error.
pub fn build_ast(expr: Expr) -> (r: Result<Expr, BddError>)
    ensures
        match r {
            Ok(e) => {
                &&& e.tokens@ == expr.tokens@
                &&& (expr.tokens@.len() == 0 ==> e.root is None)
                &&& (expr.tokens@.len() > 0 ==> {
                    &&& spec_build_ast(expr.tokens@) matches Some(root)
                    &&& e.root == Some(root)
                })
            },
            Err(e) => spec_build_ast(expr.tokens@) is None && expr.tokens@.len() > 0 && e
                == BddError::UnbalancedExpression,
        },
{
    if expr.tokens.len() == 0 {
        return Ok(Expr { tokens: expr.tokens, root: None });
    }
    let tokens = expr.tokens;
    let n = tokens.len();
    let mut op_stack: Vec<Token> = Vec::new();
    let mut node_stack: Vec<Node> = Vec::new();
    let mut i: usize = 0;
    while i < n
        invariant
            n == tokens@.len(),
            0 <= i <= n,
            tokens@ == expr.tokens@,
            tokens@.len() > 0,
            spec_build_ast_from(tokens@, i as int, op_stack@, node_stack@) == spec_build_ast_from(
                tokens@,
                0,
                Seq::<Token>::empty(),
                Seq::<Node>::empty(),
            ),
        decreases n - i,
    {
        let ghost ops0 = op_stack@;
        let ghost nodes0 = node_stack@;
        let token = tokens[i];
        match token {
            Token::LParen => op_stack.push(Token::LParen),
            Token::OP(Operator::NOT) => op_stack.push(Token::OP(Operator::NOT)),
            Token::VAR(ndx) => node_stack.push(create_var_node(ndx)),
            Token::RParen => {
                match handle_op(&mut op_stack, &mut node_stack) {
                    Ok(_) => {},
                    Err(e) => {
                        proof {
                            assert(spec_handle_op(ops0, nodes0) is None);
                            assert(spec_build_ast_from(tokens@, i as int, ops0, nodes0) is None);
                            assert(spec_build_ast(tokens@) is None);
                        }
                        return Err(e);
                    },
                }
                let _discarded_paren = op_stack.pop();
            },
            _ => {
                match handle_op(&mut op_stack, &mut node_stack) {
                    Ok(_) => {},
                    Err(e) => {
                        proof {
                            assert(spec_handle_op(ops0, nodes0) is None);
                            assert(spec_build_ast_from(tokens@, i as int, ops0, nodes0) is None);
                            assert(spec_build_ast(tokens@) is None);
                        }
                        return Err(e);
                    },
                }
                op_stack.push(token);
            },
        }
        i = i + 1;
    }
    let ghost ops_end = op_stack@;
    let ghost nodes_end = node_stack@;
    if op_stack.len() > 0 {
        match handle_op(&mut op_stack, &mut node_stack) {
            Ok(_) => {},
            Err(e) => {
                proof {
                    assert(spec_handle_op(ops_end, nodes_end) is None);
                    assert(spec_build_ast(tokens@) is None);
                }
                return Err(e);
            },
        }
    }
    match node_stack.pop() {
        Some(root) => Ok(Expr { tokens, root: Some(root) }),
        None => Err(BddError::UnbalancedExpression),
    }
}

/// Tokenizes a formula against the shared ordering and assembles its
/// operator tree.
pub fn build(input: &String, bool_vars: &LinkedHashMap<char, usize>) -> (r: Result<Expr, BddError>)
    ensures
        match r {
            Ok(e) => {
                &&& spec_eb_tokenize(input@, map_entries(*bool_vars)) == Some(e.tokens@)
                &&& (e.tokens@.len() == 0 ==> e.root is None)
                &&& (e.tokens@.len() > 0 ==> e.root == spec_build_ast(e.tokens@) && e.root is Some)
            },
            Err(_) => true,
        },
        (r is Err) <==> (match spec_eb_tokenize(input@, map_entries(*bool_vars)) {
            Some(toks) => toks.len() > 0 && spec_build_ast(toks) is None,
            None => true,
        }),
{
    let tokens = match tokenize(input, bool_vars) {
        Ok(v) => v,
        Err(e) => {
            return Err(e);
        },
    };
    let expr: Expr = Expr { tokens, root: None };
    build_ast(expr)
}

/// Evaluates a formula's tree under one assignment; a formula without a
/// root is false.
pub fn evaluate_expr(expr: &Expr, values: &Vec<bool>) -> (r: bool)
    requires
        match expr.root {
            Some(n) => n.wf(values@.len() as int),
            None => true,
        },
    ensures
        r == match expr.root {
            Some(n) => n.spec_eval(values@),
            None => false,
        },
{
    if let Some(node) = &expr.root {
        node.evaluate(values)
    } else {
        false
    }
}

} // verus!
