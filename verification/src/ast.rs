//! The naive truth-table cross-check: each formula's post-order stream is
//! turned into an operator tree, every assignment of the declared
//! variables is enumerated, and the trees are evaluated against each
//! assignment. The session records every row of results, the rows on
//! which the formulas disagree, and the overall equivalence verdict.

use vstd::prelude::*;

verus! {

use crate::areabdd::{op_bool, stream_verdict, BddError};
use crate::ordering_map::{
    lemma_lookup_none, lemma_lookup_some_is_entry, map_entries, ordering_get, ordering_len,
};
use crate::parser::{Operator, Parser, Token};
use vstd::arithmetic::power2::{lemma_pow2_unfold, pow2};

/// A leaf of the operator tree: the zero-based position of the variable it
/// reads.
#[derive(Debug, PartialEq, Eq, Structural, Copy, Clone)]
pub struct VarNode {
    pub val: usize,
}

/// An inner node of the operator tree: `NOT` has only a left child, the
/// binary operators have both.
#[derive(Debug, PartialEq)]
pub struct OpNode {
    pub op: Operator,
    pub left: Box<Node>,
    pub right: Option<Box<Node>>,
}

/// One node of a formula's operator tree.
#[derive(Debug, PartialEq)]
pub enum Node {
    OP(OpNode),
    VAR(VarNode),
}

/// A cross-check session: the tree of each formula, the enumerated
/// assignments, the per-assignment evaluation rows, the rows on which not
/// every formula agreed, and the verdict.
#[derive(Debug)]
pub struct ASTSession {
    pub roots: Vec<Node>,
    pub cases: Vec<Vec<bool>>,
    pub results: Vec<Vec<bool>>,
    pub cex: Vec<Vec<bool>>,
    pub all_eq: bool,
}

impl Node {
    /// Shape validity: `NOT` nodes have exactly one child, binary nodes
    /// two, and every variable is below `n`.
    pub open spec fn wf(self, n: int) -> bool
        decreases self,
    {
        match self {
            Node::VAR(v) => v.val < n,
            Node::OP(o) => {
                &&& o.left.wf(n)
                &&& if o.op is NOT {
                    o.right is None
                } else {
                    match o.right {
                        Some(r) => r.wf(n),
                        None => false,
                    }
                }
            },
        }
    }

    /// The Boolean value of the tree under an assignment.
    pub open spec fn spec_eval(self, values: Seq<bool>) -> bool
        decreases self,
    {
        match self {
            Node::VAR(v) => if v.val < values.len() {
                values[v.val as int]
            } else {
                false
            },
            Node::OP(o) => {
                if o.op is NOT {
                    !o.left.spec_eval(values)
                } else {
                    match o.right {
                        Some(r) => op_bool(o.op, o.left.spec_eval(values), r.spec_eval(values)),
                        None => false,
                    }
                }
            },
        }
    }

    /// Evaluates the tree under one assignment of the variables.
    pub fn evaluate(&self, values: &Vec<bool>) -> (r: bool)
        requires
            self.wf(values@.len() as int),
        ensures
            r == self.spec_eval(values@),
        decreases *self,
    {
        match self {
            Node::VAR(node) => values[node.val],
            Node::OP(node) => {
                match node.op {
                    Operator::NOT => !node.left.evaluate(values),
                    Operator::AND => {
                        let l = node.left.evaluate(values);
                        match &node.right {
                            Some(r) => l && r.evaluate(values),
                            None => false,
                        }
                    },
                    Operator::OR => {
                        let l = node.left.evaluate(values);
                        match &node.right {
                            Some(r) => l || r.evaluate(values),
                            None => false,
                        }
                    },
                    Operator::XOR => {
                        let l = node.left.evaluate(values);
                        match &node.right {
                            Some(r) => l != r.evaluate(values),
                            None => false,
                        }
                    },
                }
            },
        }
    }
}

/// A variable leaf.
pub fn create_var_node(val: usize) -> (r: Node)
    ensures
        r == Node::VAR(VarNode { val }),
{
    Node::VAR(VarNode { val })
}

/// An operator node over one or two children.
pub fn create_op_node(op: Operator, left: Node, right: Option<Node>) -> (r: Node)
    ensures
        r matches Node::OP(o) && o.op == op && *o.left == left && (match (o.right, right) {
            (Some(b), Some(n)) => *b == n,
            (None, None) => true,
            _ => false,
        }),
{
    let boxed_right = match right {
        Some(n) => Some(Box::new(n)),
        None => None,
    };
    Node::OP(OpNode { op, left: Box::new(left), right: boxed_right })
}

/// The canonical enumeration of all assignments of `n` variables: the
/// enumeration for `n - 1` variables, each row extended first by `false`
/// and then by `true`.
pub open spec fn spec_cases(n: nat) -> Seq<Seq<bool>>
    decreases n,
{
    if n == 0 {
        seq![Seq::<bool>::empty()]
    } else {
        let prev = spec_cases((n - 1) as nat);
        Seq::new(
            2 * prev.len(),
            |i: int|
                if i % 2 == 0 {
                    prev[i / 2].push(false)
                } else {
                    prev[i / 2].push(true)
                },
        )
    }
}

/// The enumeration has exactly `2^n` rows of `n` entries each.
pub proof fn law_cases_shape(n: nat)
    ensures
        spec_cases(n).len() == pow2(n),
        forall|k: int| 0 <= k < spec_cases(n).len() ==> (#[trigger] spec_cases(n)[k]).len() == n,
    decreases n,
{
    if n == 0 {
        vstd::arithmetic::power2::lemma2_to64();
    } else {
        law_cases_shape((n - 1) as nat);
        lemma_pow2_unfold(n);
    }
}

/// Enumerates every assignment of `n` variables in canonical order.
/// The result grows as `2^n`, so `n` must stay small enough for the rows
/// to be countable in a machine word.
pub fn get_cases(n: usize) -> (r: Vec<Vec<bool>>)
    requires
        n <= 30,
    ensures
        r@.map_values(|row: Vec<bool>| row@) == spec_cases(n as nat),
    decreases n,
{
    if n == 0 {
        let empty_row: Vec<bool> = Vec::new();
        let mut perms: Vec<Vec<bool>> = Vec::new();
        perms.push(empty_row);
        proof {
            assert(perms@.map_values(|row: Vec<bool>| row@) =~= spec_cases(0));
        }
        return perms;
    }
    let prev = get_cases(n - 1);
    let m = prev.len();
    let mut perms: Vec<Vec<bool>> = Vec::new();
    let mut i: usize = 0;
    proof {
        law_cases_shape((n - 1) as nat);
        vstd::arithmetic::power2::lemma2_to64();
        if n as nat <= 30 {
            vstd::arithmetic::power2::lemma_pow2_strictly_increases((n - 1) as nat, 30);
        }
    }
    while i < m
        invariant
            m == prev@.len(),
            prev@.map_values(|row: Vec<bool>| row@) == spec_cases((n - 1) as nat),
            0 <= i <= m,
            m < 0x40000000,
            1 <= n <= 30,
            perms@.len() == 2 * i,
            forall|j: int|
                0 <= j < perms@.len() ==> (#[trigger] perms@[j])@ == spec_cases(n as nat)[j],
        decreases m - i,
    {
        let perm = &prev[i];
        let mut false_append = perm.clone();
        let mut true_append = perm.clone();
        false_append.push(false);
        true_append.push(true);
        proof {
            assert(prev@.map_values(|row: Vec<bool>| row@)[i as int] == prev@[i as int]@);
            lemma_pow2_unfold(n as nat);
            law_cases_shape((n - 1) as nat);
        }
        perms.push(false_append);
        perms.push(true_append);
        proof {
            assert(spec_cases(n as nat)[2 * i] == spec_cases((n - 1) as nat)[i as int].push(false));
            assert(spec_cases(n as nat)[2 * i + 1] == spec_cases((n - 1) as nat)[i as int].push(
                true,
            ));
        }
        i = i + 1;
    }
    proof {
        law_cases_shape((n - 1) as nat);
        lemma_pow2_unfold(n as nat);
        assert(perms@.map_values(|row: Vec<bool>| row@) =~= spec_cases(n as nat));
    }
    perms
}

/// Builds the operator tree of every parsed formula, enumerates all
/// assignments of the shared ordering, and evaluates the trees against
/// each assignment. A session without formulas is returned empty, with a
/// negative verdict, as nothing was shown equivalent. The ordering must
/// carry dense positions (as `create_session` produces); more than 30
/// variables would overflow the enumeration and are reported as a
/// capacity condition.
pub fn build_ast_session(inputs: &Parser) -> (r: Result<ASTSession, BddError>)
    requires
        crate::parser::entries_dense(map_entries(inputs.ast_order)),
    ensures
        match r {
            Ok(s) => {
                let entries = map_entries(inputs.ast_order);
                &&& s.roots@.len() == inputs.exprs@.len()
                &&& forall|k: int|
                    0 <= k < inputs.exprs@.len() ==> stream_verdict(
                        #[trigger] inputs.exprs@[k].rpn@,
                        entries,
                    ) is None || inputs.exprs@.len() == 0
                &&& (inputs.exprs@.len() == 0 ==> s.cases@.len() == 0 && s.results@.len() == 0
                    && s.cex@.len() == 0 && !s.all_eq)
                &&& (inputs.exprs@.len() > 0 ==> {
                    &&& s.cases@.map_values(|row: Vec<bool>| row@) == spec_cases(
                        entries.len() as nat,
                    )
                    &&& s.results@.len() == s.cases@.len()
                    &&& forall|i: int, j: int|
                        #![trigger s.results@[i]@[j]]
                        0 <= i < s.results@.len() && 0 <= j < s.roots@.len() ==> s.results@[i]@[j]
                            == s.roots@[j].spec_eval(s.cases@[i]@)
                    &&& s.all_eq == (forall|i: int|
                        0 <= i < s.results@.len() ==> row_uniform((#[trigger] s.results@[i])@))
                })
                &&& s.cex@.map_values(|row: Vec<bool>| row@) == s.results@.map_values(
                    |row: Vec<bool>| row@,
                ).filter(|row: Seq<bool>| !row_uniform(row))
            },
            Err(e) => e == BddError::CapacityExceeded || exists|k: int|
                0 <= k < inputs.exprs@.len() && stream_verdict(
                    #[trigger] inputs.exprs@[k].rpn@,
                    map_entries(inputs.ast_order),
                ) == Some(e),
        },
        (r == Err::<ASTSession, BddError>(BddError::CapacityExceeded)) <==> map_entries(
            inputs.ast_order,
        ).len() > 30,
{
    let n = ordering_len(&inputs.ast_order);
    if n > 30 {
        return Err(BddError::CapacityExceeded);
    }
    let ghost entries = map_entries(inputs.ast_order);
    let n_exprs = inputs.exprs.len();
    let mut roots: Vec<Node> = Vec::with_capacity(n_exprs);
    if n_exprs == 0 {
        let empty_session = ASTSession {
            roots,
            cases: Vec::new(),
            results: Vec::new(),
            cex: Vec::new(),
            all_eq: false,
        };
        proof {
            reveal(Seq::filter);
            assert(empty_session.cex@.map_values(|row: Vec<bool>| row@)
                =~= empty_session.results@.map_values(|row: Vec<bool>| row@).filter(
                |row: Seq<bool>| !row_uniform(row),
            ));
        }
        return Ok(empty_session);
    }
    let mut k: usize = 0;
    while k < n_exprs
        invariant
            n_exprs == inputs.exprs@.len(),
            0 <= k <= n_exprs,
            n == entries.len(),
            n <= 30,
            entries == map_entries(inputs.ast_order),
            crate::parser::entries_dense(entries),
            roots@.len() == k,
            forall|j: int| 0 <= j < k ==> (#[trigger] roots@[j]).wf(n as int),
            forall|j: int|
                0 <= j < k ==> stream_verdict(#[trigger] inputs.exprs@[j].rpn@, entries) is None,
        decreases n_exprs - k,
    {
        let rpn = &inputs.exprs[k].rpn;
        let n_tokens = rpn.len();
        let mut node_stack: Vec<Node> = Vec::with_capacity(n_tokens);
        let mut t: usize = 0;
        while t < n_tokens
            invariant
                n_tokens == rpn@.len(),
                0 <= t <= n_tokens,
                n == entries.len(),
                n <= 30,
                entries == map_entries(inputs.ast_order),
                crate::parser::entries_dense(entries),
                0 <= k < inputs.exprs@.len(),
                rpn@ == inputs.exprs@[k as int].rpn@,
                forall|j: int| 0 <= j < node_stack@.len() ==> (#[trigger] node_stack@[j]).wf(
                    n as int,
                ),
                crate::areabdd::stream_verdict_from(
                    rpn@,
                    t as int,
                    node_stack@.len() as int,
                    entries,
                ) == stream_verdict(rpn@, entries),
            decreases n_tokens - t,
        {
            let token = rpn[t];
            match token {
                Token::VAR(c) => {
                    let ndx = match ordering_get(&inputs.ast_order, c) {
                        Some(p) => p,
                        None => {
                            proof {
                                lemma_lookup_none(entries, c, 0);
                                assert(stream_verdict(inputs.exprs@[k as int].rpn@, entries)
                                    == Some(BddError::UnknownVariable));
                            }
                            return Err(BddError::UnknownVariable);
                        },
                    };
                    proof {
                        lemma_lookup_none(entries, c, 0);
                        lemma_lookup_some_is_entry(entries, c, 0);
                    }
                    node_stack.push(create_var_node(ndx));
                },
                Token::OP(op) => {
                    if matches!(op, Operator::NOT) {
                        let child = match node_stack.pop() {
                            Some(v) => v,
                            None => {
                                proof {
                                    assert(stream_verdict(inputs.exprs@[k as int].rpn@, entries)
                                        == Some(BddError::UnbalancedExpression));
                                }
                                return Err(BddError::UnbalancedExpression);
                            },
                        };
                        node_stack.push(create_op_node(Operator::NOT, child, None));
                    } else {
                        let right_child = match node_stack.pop() {
                            Some(v) => v,
                            None => {
                                proof {
                                    assert(stream_verdict(inputs.exprs@[k as int].rpn@, entries)
                                        == Some(BddError::UnbalancedExpression));
                                }
                                return Err(BddError::UnbalancedExpression);
                            },
                        };
                        let left_child = match node_stack.pop() {
                            Some(v) => v,
                            None => {
                                proof {
                                    assert(stream_verdict(inputs.exprs@[k as int].rpn@, entries)
                                        == Some(BddError::UnbalancedExpression));
                                }
                                return Err(BddError::UnbalancedExpression);
                            },
                        };
                        node_stack.push(create_op_node(op, left_child, Some(right_child)));
                    }
                },
                _ => {
                    proof {
                        assert(stream_verdict(inputs.exprs@[k as int].rpn@, entries) == Some(
                            BddError::UnexpectedToken,
                        ));
                    }
                    return Err(BddError::UnexpectedToken);
                },
            }
            t = t + 1;
        }
        if node_stack.len() == 1 {
            let root = match node_stack.pop() {
                Some(v) => v,
                None => {
                    return Err(BddError::UnbalancedExpression);
                },
            };
            roots.push(root);
        } else if node_stack.len() == 0 {
            proof {
                assert(stream_verdict(inputs.exprs@[k as int].rpn@, entries) == Some(
                    BddError::EmptyExpression,
                ));
            }
            return Err(BddError::EmptyExpression);
        } else {
            proof {
                assert(stream_verdict(inputs.exprs@[k as int].rpn@, entries) == Some(
                    BddError::UnbalancedExpression,
                ));
            }
            return Err(BddError::UnbalancedExpression);
        }
        k = k + 1;
    }
    let cases = get_cases(n);
    proof {
        law_cases_shape(n as nat);
        vstd::arithmetic::power2::lemma_pow2_pos(n as nat);
        assert forall|i: int, j: int|
            0 <= i < cases@.len() && 0 <= j < cases@.len() implies cases@[i]@.len()
            == cases@[j]@.len() by {
            assert(cases@.map_values(|row: Vec<bool>| row@)[i] == cases@[i]@);
            assert(cases@.map_values(|row: Vec<bool>| row@)[j] == cases@[j]@);
        }
        assert(cases@.len() > 0);
        assert(cases@.map_values(|row: Vec<bool>| row@)[0] == cases@[0]@);
        assert(case_width(cases@) == n as int);
    }
    let session = ASTSession {
        roots,
        cases,
        results: Vec::new(),
        cex: Vec::new(),
        all_eq: false,
    };
    let res = evaluate_session_seq(session);
    Ok(res)
}

/// The number of variables each enumerated assignment binds (zero when
/// there is nothing to evaluate).
pub open spec fn case_width(cases: Seq<Vec<bool>>) -> int {
    if cases.len() == 0 {
        0
    } else {
        cases[0]@.len() as int
    }
}

/// A row on which every formula gave the same answer (an empty row is
/// vacuously uniform).
pub open spec fn row_uniform(row: Seq<bool>) -> bool {
    forall|j: int| 0 <= j < row.len() ==> #[trigger] row[j] == row[0]
}

/// Evaluates every root against every enumerated assignment: `results`
/// holds one row per assignment with one entry per formula, `cex` keeps
/// the rows on which the formulas disagreed, and `all_eq` reports that no
/// such row exists.
pub fn evaluate_session_seq(session: ASTSession) -> (r: ASTSession)
    requires
        forall|k: int|
            0 <= k < session.roots@.len() ==> (#[trigger] session.roots@[k]).wf(
                case_width(session.cases@),
            ),
        forall|i: int, j: int|
            0 <= i < session.cases@.len() && 0 <= j < session.cases@.len()
                ==> session.cases@[i]@.len() == session.cases@[j]@.len(),
    ensures
        r.roots@ == session.roots@,
        r.cases@ == session.cases@,
        r.results@.len() == session.cases@.len(),
        forall|i: int|
            0 <= i < r.results@.len() ==> (#[trigger] r.results@[i])@.len()
                == session.roots@.len(),
        forall|i: int, j: int|
            #![trigger r.results@[i]@[j]]
            0 <= i < r.results@.len() && 0 <= j < session.roots@.len() ==> r.results@[i]@[j]
                == session.roots@[j].spec_eval(session.cases@[i]@),
        r.cex@.map_values(|row: Vec<bool>| row@) == r.results@.map_values(
            |row: Vec<bool>| row@,
        ).filter(|row: Seq<bool>| !row_uniform(row)),
        r.all_eq == (forall|i: int|
            0 <= i < r.results@.len() ==> row_uniform((#[trigger] r.results@[i])@)),
{
    let n_cases = session.cases.len();
    let n_roots = session.roots.len();
    let mut results: Vec<Vec<bool>> = Vec::with_capacity(n_cases);
    let mut cex: Vec<Vec<bool>> = Vec::new();
    let mut i: usize = 0;
    while i < n_cases
        invariant
            n_cases == session.cases@.len(),
            n_roots == session.roots@.len(),
            0 <= i <= n_cases,
            forall|k: int|
                0 <= k < session.roots@.len() ==> (#[trigger] session.roots@[k]).wf(
                    case_width(session.cases@),
                ),
            forall|x: int, y: int|
                0 <= x < session.cases@.len() && 0 <= y < session.cases@.len()
                    ==> session.cases@[x]@.len() == session.cases@[y]@.len(),
            results@.len() == i,
            forall|x: int|
                0 <= x < i ==> (#[trigger] results@[x])@.len() == session.roots@.len(),
            forall|x: int, j: int|
                #![trigger results@[x]@[j]]
                0 <= x < i && 0 <= j < n_roots ==> results@[x]@[j] == session.roots@[j].spec_eval(
                    session.cases@[x]@,
                ),
            cex@.map_values(|row: Vec<bool>| row@) == results@.map_values(
                |row: Vec<bool>| row@,
            ).filter(|row: Seq<bool>| !row_uniform(row)),
            cex@.len() > 0 ==> exists|x: int|
                0 <= x < results@.len() && !row_uniform((#[trigger] results@[x])@),
        decreases n_cases - i,
    {
        let case = &session.cases[i];
        let mut case_res: Vec<bool> = Vec::with_capacity(n_roots);
        let mut j: usize = 0;
        while j < n_roots
            invariant
                n_roots == session.roots@.len(),
                0 <= j <= n_roots,
                0 <= i < session.cases@.len(),
                case@ == session.cases@[i as int]@,
                forall|k: int|
                    0 <= k < session.roots@.len() ==> (#[trigger] session.roots@[k]).wf(
                        case@.len() as int,
                    ),
                case_res@.len() == j,
                forall|x: int|
                    0 <= x < j ==> case_res@[x] == (#[trigger] session.roots@[x]).spec_eval(case@),
            decreases n_roots - j,
        {
            let run_res = session.roots[j].evaluate(case);
            case_res.push(run_res);
            j = j + 1;
        }
        // a disagreeing row becomes a counterexample
        let mut uniform = true;
        let mut j2: usize = 0;
        while j2 < case_res.len()
            invariant
                0 <= j2 <= case_res@.len(),
                uniform == (forall|x: int| 0 <= x < j2 ==> #[trigger] case_res@[x] == case_res@[0]),
            decreases case_res@.len() - j2,
        {
            if case_res[j2] != case_res[0] {
                uniform = false;
            }
            j2 = j2 + 1;
        }
        let ghost pre_results = results@;
        let ghost pre_cex = cex@;
        if !uniform {
            cex.push(case_res.clone());
        }
        results.push(case_res);
        proof {
            let rowview = |row: Vec<bool>| row@;
            let pred = |row: Seq<bool>| !row_uniform(row);
            let base = pre_results.map_values(rowview);
            let row = results@.last()@;
            assert(results@.map_values(rowview) =~= base.push(row));
            reveal(Seq::filter);
            assert(base.push(row).drop_last() =~= base);
            assert(base.push(row).filter(pred) == if pred(row) {
                base.filter(pred).push(row)
            } else {
                base.filter(pred)
            });
            if !uniform {
                assert(cex@.map_values(rowview) =~= pre_cex.map_values(rowview).push(row));
                assert(!row_uniform(results@[results@.len() - 1]@));
            } else if pre_cex.len() > 0 {
                let x = choose|x: int|
                    0 <= x < pre_results.len() && !row_uniform((#[trigger] pre_results[x])@);
                assert(results@[x] == pre_results[x]);
                assert(!row_uniform(results@[x]@));
            }
            assert(cex@.map_values(rowview) == results@.map_values(rowview).filter(pred));
        }
        i = i + 1;
    }
    let all_eq = cex.len() == 0;
    proof {
        let rowview = |row: Vec<bool>| row@;
        let pred = |row: Seq<bool>| !row_uniform(row);
        broadcast use vstd::seq_lib::group_filter_ensures;

        let filtered = results@.map_values(rowview).filter(pred);
        if cex@.len() == 0 {
            assert forall|x: int| 0 <= x < results@.len() implies row_uniform(
                (#[trigger] results@[x])@,
            ) by {
                if !row_uniform(results@[x]@) {
                    assert(pred(results@.map_values(rowview)[x]));
                    assert(filtered.contains(results@.map_values(rowview)[x]));
                }
            }
        }
    }
    ASTSession { roots: session.roots, cases: session.cases, results, cex, all_eq }
}

} // verus!
