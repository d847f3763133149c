//! A second, brute-force BDD engine without complement edges: formulas are
//! compiled by Shannon expansion over the whole variable ordering,
//! substituting constants and evaluating the fully-substituted stream at
//! the leaves. The unique table hash-conses every node, so two formulas
//! are logically equivalent exactly when they compile to the same node —
//! canonicity is proved here as `law_canonicity`.

use vstd::prelude::*;

verus! {

use crate::parser::{Operator, Parser, Token};
use crate::areabdd::{lemma_prefix_trans, op_bool};
use vstd::arithmetic::power2::{lemma_pow2_pos, lemma_pow2_unfold, pow2};
use crate::ordering_map::map_entries;
use crate::ordering_map::ordering_keys;

/// An internal node: the 1-based variable number it tests and the indices
/// of its two children in the unique table.
#[derive(Debug, PartialEq, Eq, Structural, Copy, Clone)]
pub struct VarNode {
    pub var: usize,
    pub lo: usize,
    pub hi: usize,
}

/// One vertex of the diagram: a constant sink or an internal node.
#[derive(Debug, PartialEq, Eq, Structural, Copy, Clone)]
pub enum BDDInner {
    SINK(bool),
    VAR(VarNode),
}

/// A session of this engine: the unique table (index 0 is the FALSE sink,
/// index 1 the TRUE sink) and the root of each compiled formula.
#[derive(Debug)]
pub struct BDDSession {
    pub unique_table: Vec<BDDInner>,
    pub roots: Vec<usize>,
}

/// Well-formedness of the vertex at table index `i`: an internal node
/// whose children precede it and differ.
pub open spec fn wf_node(t: Seq<BDDInner>, i: int) -> bool {
    match t[i] {
        BDDInner::SINK(_) => false,
        BDDInner::VAR(v) => v.lo < i && v.hi < i && v.lo != v.hi && 1 <= v.var,
    }
}

/// The unique table's invariant: the two sinks sit at indices 0 and 1,
/// every later entry is a well-formed internal node, and no two entries
/// are equal (hash-consing).
pub open spec fn wf_table(t: Seq<BDDInner>) -> bool {
    &&& 2 <= t.len()
    &&& t[0] == BDDInner::SINK(false)
    &&& t[1] == BDDInner::SINK(true)
    &&& forall|i: int| 2 <= i < t.len() ==> #[trigger] wf_node(t, i)
    &&& forall|i: int, j: int| 0 <= i < j < t.len() ==> t[i] != t[j]
}

/// The Boolean function of the vertex at index `i` under an assignment
/// (`a[k]` is the value of the variable at 1-based number `k + 1`).
pub open spec fn eval_node(t: Seq<BDDInner>, i: int, a: Seq<bool>) -> bool
    decreases i,
{
    if 0 <= i < t.len() {
        match t[i] {
            BDDInner::SINK(b) => b,
            BDDInner::VAR(v) => if v.lo < i && v.hi < i && 1 <= v.var <= a.len() {
                if a[v.var - 1] {
                    eval_node(t, v.hi as int, a)
                } else {
                    eval_node(t, v.lo as int, a)
                }
            } else {
                false
            },
        }
    } else {
        false
    }
}

/// First table index `>= i` holding exactly `c`, or `-1`.
pub open spec fn node_find_from(t: Seq<BDDInner>, c: BDDInner, i: int) -> int
    decreases t.len() - i,
{
    if i < 0 || i >= t.len() {
        -1
    } else if t[i] == c {
        i
    } else {
        node_find_from(t, c, i + 1)
    }
}

/// What `make` does to the table: the reduction rule collapses equal
/// children, an existing content keeps its index, a new content is
/// appended.
pub open spec fn spec_make_at(t: Seq<BDDInner>, var: int, lo: int, hi: int) -> (
    Seq<BDDInner>,
    int,
) {
    if lo == hi {
        (t, lo)
    } else {
        let c = BDDInner::VAR(VarNode { var: var as usize, lo: lo as usize, hi: hi as usize });
        let f = node_find_from(t, c, 0);
        if f >= 0 {
            (t, f)
        } else {
            (t.push(c), t.len() as int)
        }
    }
}

/// One token after substituting the variable `var` by the constant `sub`.
pub open spec fn subst_token(t: Token, var: char, sub: bool) -> Token {
    match t {
        Token::VAR(c) => if c == var {
            Token::VAL(sub)
        } else {
            t
        },
        _ => t,
    }
}

/// A stream after substituting one variable by a constant.
pub open spec fn spec_sub(e: Seq<Token>, var: char, sub: bool) -> Seq<Token> {
    Seq::new(e.len(), |i: int| subst_token(e[i], var, sub))
}

/// Evaluation of a post-order stream of constants and operators with an
/// explicit operand stack; `None` on any malformed stream or remaining
/// variable.
pub open spec fn rpn_eval_from(e: Seq<Token>, i: int, stack: Seq<bool>) -> Option<bool>
    decreases e.len() - i,
{
    if i < 0 || i >= e.len() {
        if stack.len() == 1 {
            Some(stack[0])
        } else {
            None
        }
    } else {
        match e[i] {
            Token::VAL(b) => rpn_eval_from(e, i + 1, stack.push(b)),
            Token::OP(op) => if op is NOT {
                if stack.len() >= 1 {
                    rpn_eval_from(e, i + 1, stack.drop_last().push(!stack.last()))
                } else {
                    None
                }
            } else {
                if stack.len() >= 2 {
                    let r = stack.last();
                    let l = stack.drop_last().last();
                    rpn_eval_from(e, i + 1, stack.drop_last().drop_last().push(op_bool(op, l, r)))
                } else {
                    None
                }
            },
            _ => None,
        }
    }
}

/// Evaluation of a whole stream.
pub open spec fn rpn_eval(e: Seq<Token>) -> Option<bool> {
    rpn_eval_from(e, 0, Seq::empty())
}

/// Shape validity of a stream for this engine: operand counting works out
/// and every variable is drawn from `allowed`.
pub open spec fn bdd_stream_ok_from(e: Seq<Token>, i: int, depth: int, allowed: Seq<char>) -> bool
    decreases e.len() - i,
{
    if i < 0 || i >= e.len() {
        depth == 1
    } else {
        match e[i] {
            Token::VAR(c) => allowed.contains(c) && bdd_stream_ok_from(e, i + 1, depth + 1, allowed),
            Token::VAL(_) => bdd_stream_ok_from(e, i + 1, depth + 1, allowed),
            Token::OP(op) => if op is NOT {
                depth >= 1 && bdd_stream_ok_from(e, i + 1, depth, allowed)
            } else {
                depth >= 2 && bdd_stream_ok_from(e, i + 1, depth - 1, allowed)
            },
            _ => false,
        }
    }
}

/// Shape validity of a whole stream.
pub open spec fn bdd_stream_ok(e: Seq<Token>, allowed: Seq<char>) -> bool {
    bdd_stream_ok_from(e, 0, 0, allowed)
}

/// No two symbols of an ordering are equal.
pub open spec fn ord_distinct(ord: Seq<char>) -> bool {
    forall|i: int, j: int| 0 <= i < j < ord.len() ==> ord[i] != ord[j]
}

/// What the recursive builder does to the table, and which vertex it
/// returns: below the last variable the fully-substituted stream is
/// evaluated to a sink; otherwise both cofactor streams are built and
/// joined by `make` at this level.
pub open spec fn spec_build(t: Seq<BDDInner>, e: Seq<Token>, ndx: int, ord: Seq<char>) -> (
    Seq<BDDInner>,
    int,
)
    decreases ord.len() + 1 - ndx,
{
    if ndx < 1 || ndx > ord.len() {
        match rpn_eval(e) {
            Some(b) => (t, if b {
                1int
            } else {
                0int
            }),
            None => (t, -1),
        }
    } else {
        let lo_r = spec_build(t, spec_sub(e, ord[ndx - 1], false), ndx + 1, ord);
        let hi_r = spec_build(lo_r.0, spec_sub(e, ord[ndx - 1], true), ndx + 1, ord);
        spec_make_at(hi_r.0, ndx, lo_r.1, hi_r.1)
    }
}

/// A stream after substituting the variables at positions `ndx - 1` and
/// later by the constants `b` (position `ndx - 1 + k` gets `b[k]`).
pub open spec fn subst_tail(e: Seq<Token>, ord: Seq<char>, b: Seq<bool>, ndx: int) -> Seq<Token>
    decreases b.len(),
{
    if b.len() == 0 || ndx < 1 || ndx > ord.len() {
        e
    } else {
        subst_tail(spec_sub(e, ord[ndx - 1], b[0]), ord, b.drop_first(), ndx + 1)
    }
}

/// The truth value of a stream under a full assignment of the ordering:
/// substitute every variable, then evaluate.
pub open spec fn stream_sem(e: Seq<Token>, ord: Seq<char>, a: Seq<bool>) -> Option<bool> {
    rpn_eval(subst_tail(e, ord, a, 1))
}

/// The symbols of a parsing session's ordering, in insertion order.
pub open spec fn order_syms(p: Parser) -> Seq<char> {
    map_entries(p.ast_order).map_values(|q: (char, usize)| q.0)
}

proof fn lemma_node_find_none_iff(t: Seq<BDDInner>, c: BDDInner, i: int)
    requires
        0 <= i,
    ensures
        (node_find_from(t, c, i) == -1) <==> (forall|j: int| i <= j < t.len() ==> t[j] != c),
        node_find_from(t, c, i) == -1 || node_find_from(t, c, i) >= 0,
        node_find_from(t, c, i) >= 0 ==> i <= node_find_from(t, c, i) < t.len() && t[node_find_from(
            t,
            c,
            i,
        )] == c,
    decreases t.len() - i,
{
    if 0 <= i < t.len() && t[i] != c {
        lemma_node_find_none_iff(t, c, i + 1);
    }
}

proof fn lemma_node_find_found(t: Seq<BDDInner>, c: BDDInner, i: int, k: int)
    requires
        0 <= i <= k < t.len(),
        t[k] == c,
        forall|j: int| i <= j < k ==> t[j] != c,
    ensures
        node_find_from(t, c, i) == k,
    decreases k - i,
{
    if i < k {
        lemma_node_find_found(t, c, i + 1, k);
    }
}

impl BDDSession {
    /// The session invariant: a well-formed unique table, every root in
    /// range.
    pub open spec fn wf(self) -> bool {
        &&& wf_table(self.unique_table@)
        &&& forall|k: int|
            0 <= k < self.roots@.len() ==> (#[trigger] self.roots@[k]) < self.unique_table@.len()
    }

    /// A fresh session holding just the two sinks; `num_vars` only sizes
    /// the initial allocation.
    pub fn init_test(num_vars: usize) -> (r: BDDSession)
        ensures
            r.wf(),
            r.unique_table@ =~= seq![BDDInner::SINK(false), BDDInner::SINK(true)],
            r.roots@.len() == 0,
    {
        let mut unique_table: Vec<BDDInner> = Vec::with_capacity(num_vars);
        let roots: Vec<usize> = Vec::with_capacity(num_vars);
        unique_table.push(BDDInner::SINK(false));
        unique_table.push(BDDInner::SINK(true));
        BDDSession { unique_table, roots }
    }

    /// Index of the first table entry equal to `node`, if any.
    fn find_node(&self, node: &BDDInner) -> (r: Option<usize>)
        ensures
            match r {
                Some(k) => k as int == node_find_from(self.unique_table@, *node, 0),
                None => node_find_from(self.unique_table@, *node, 0) == -1,
            },
    {
        let n = self.unique_table.len();
        let mut i: usize = 0;
        while i < n
            invariant
                n == self.unique_table@.len(),
                0 <= i <= n,
                forall|j: int| 0 <= j < i ==> self.unique_table@[j] != *node,
            decreases n - i,
        {
            if self.unique_table[i] == *node {
                proof {
                    lemma_node_find_found(self.unique_table@, *node, 0, i as int);
                }
                return Some(i);
            }
            i = i + 1;
        }
        proof {
            lemma_node_find_none_iff(self.unique_table@, *node, 0);
        }
        None
    }

    /// Appends a node to the unique table unless an equal one is already
    /// there; reports whether it was new.
    fn add(&mut self, node: BDDInner) -> (b: bool)
        ensures
            b == (node_find_from(old(self).unique_table@, node, 0) == -1),
            b ==> final(self).unique_table@ == old(self).unique_table@.push(node),
            !b ==> final(self).unique_table@ == old(self).unique_table@,
            final(self).roots@ == old(self).roots@,
    {
        match self.find_node(&node) {
            Some(_) => false,
            None => {
                self.unique_table.push(node);
                true
            },
        }
    }

    /// Whether an equal node is in the unique table.
    fn member(&self, node: &BDDInner) -> (b: bool)
        ensures
            b == (node_find_from(self.unique_table@, *node, 0) >= 0),
    {
        match self.find_node(node) {
            Some(_) => true,
            None => false,
        }
    }

    /// The index of the table entry equal to `node`, which must exist.
    fn lookup(&self, node: BDDInner) -> (r: usize)
        requires
            node_find_from(self.unique_table@, node, 0) >= 0,
        ensures
            r as int == node_find_from(self.unique_table@, node, 0),
    {
        match self.find_node(&node) {
            Some(k) => k,
            None => {
                // unreachable: the caller established membership
                proof {
                    assert(false);
                }
                0
            },
        }
    }

    /// Looks up or creates the node `(var, lo, hi)`: equal children
    /// collapse to that child (reduction), an existing content keeps its
    /// index (hash-consing), a new one is appended.
    pub fn make(&mut self, var: usize, lo: usize, hi: usize) -> (r: usize)
        requires
            old(self).wf(),
            1 <= var,
            lo < old(self).unique_table@.len(),
            hi < old(self).unique_table@.len(),
        ensures
            final(self).wf(),
            final(self).roots@ == old(self).roots@,
            old(self).unique_table@.is_prefix_of(final(self).unique_table@),
            r < final(self).unique_table@.len(),
            (final(self).unique_table@, r as int) == spec_make_at(
                old(self).unique_table@,
                var as int,
                lo as int,
                hi as int,
            ),
    {
        if lo == hi {
            proof {
                assert(old(self).unique_table@.is_prefix_of(self.unique_table@)) by {
                    assert(self.unique_table@ =~= self.unique_table@.subrange(
                        0,
                        self.unique_table@.len() as int,
                    ));
                }
            }
            return lo;
        }
        let vertex = BDDInner::VAR(VarNode { var, lo, hi });
        proof {
            lemma_node_find_none_iff(self.unique_table@, vertex, 0);
        }
        if self.member(&vertex) {
            let r = self.lookup(vertex);
            proof {
                lemma_node_find_none_iff(self.unique_table@, vertex, 0);
                assert(old(self).unique_table@.is_prefix_of(self.unique_table@)) by {
                    assert(self.unique_table@ =~= self.unique_table@.subrange(
                        0,
                        self.unique_table@.len() as int,
                    ));
                }
            }
            r
        } else {
            let ret = self.unique_table.len();
            self.add(vertex);
            proof {
                lemma_node_find_none_iff(old(self).unique_table@, vertex, 0);
                assert forall|i: int| 2 <= i < self.unique_table@.len() implies #[trigger] wf_node(
                    self.unique_table@,
                    i,
                ) by {
                    if i < old(self).unique_table@.len() {
                        assert(wf_node(old(self).unique_table@, i));
                    }
                }
            }
            ret
        }
    }

    /// Builds the sub-diagram of a stream whose variables at positions
    /// before `ndx - 1` have already been substituted: past the last
    /// variable the stream is a constant expression and is evaluated to a
    /// sink; otherwise both cofactors are built and joined at this level.
    pub fn build_helper(&mut self, expr: &Vec<Token>, ndx: usize, ordering: &Vec<char>) -> (r:
        Result<usize, &'static str>)
        requires
            old(self).wf(),
            1 <= ndx <= ordering@.len() + 1,
            ordering@.len() < usize::MAX,
        ensures
            final(self).wf(),
            final(self).roots@ == old(self).roots@,
            old(self).unique_table@.is_prefix_of(final(self).unique_table@),
            match r {
                Ok(root) => (final(self).unique_table@, root as int) == spec_build(
                    old(self).unique_table@,
                    expr@,
                    ndx as int,
                    ordering@,
                ) && root < final(self).unique_table@.len(),
                Err(_) => !bdd_stream_ok(expr@, ordering@.skip(ndx - 1)),
            },
            bdd_stream_ok(expr@, ordering@.skip(ndx - 1)) ==> r is Ok,
        decreases ordering@.len() + 1 - ndx,
    {
        if ndx > ordering.len() {
            let b = match eval_expr(expr) {
                Ok(b) => b,
                Err(e) => {
                    proof {
                        assert(self.unique_table@ =~= self.unique_table@.subrange(
                            0,
                            self.unique_table@.len() as int,
                        ));
                        // a shape-valid, fully substituted stream would
                        // have evaluated
                        if bdd_stream_ok(expr@, ordering@.skip(ndx - 1)) {
                            assert(ordering@.skip(ndx - 1).len() == 0);
                            lemma_eval_some(
                                expr@,
                                0,
                                0,
                                Seq::<bool>::empty(),
                                ordering@.skip(ndx - 1),
                            );
                        }
                    }
                    return Err(e);
                },
            };
            proof {
                assert(self.unique_table@ =~= self.unique_table@.subrange(
                    0,
                    self.unique_table@.len() as int,
                ));
            }
            if b {
                Ok(1)
            } else {
                Ok(0)
            }
        } else {
            let lo_expr = sub_constant(expr, ordering[ndx - 1], false);
            let lo = match self.build_helper(&lo_expr, ndx + 1, ordering) {
                Ok(v) => v,
                Err(e) => {
                    proof {
                        if bdd_stream_ok(expr@, ordering@.skip(ndx - 1)) {
                            lemma_sub_shape(expr@, 0, 0, ordering@, ndx - 1, false);
                        }
                    }
                    return Err(e);
                },
            };
            let hi_expr = sub_constant(expr, ordering[ndx - 1], true);
            let ghost mid = self.unique_table@;
            let hi = match self.build_helper(&hi_expr, ndx + 1, ordering) {
                Ok(v) => v,
                Err(e) => {
                    proof {
                        lemma_prefix_trans(old(self).unique_table@, mid, self.unique_table@);
                        if bdd_stream_ok(expr@, ordering@.skip(ndx - 1)) {
                            lemma_sub_shape(expr@, 0, 0, ordering@, ndx - 1, true);
                        }
                    }
                    return Err(e);
                },
            };
            proof {
                lemma_prefix_trans(old(self).unique_table@, mid, self.unique_table@);
                assert(lo < self.unique_table@.len());
            }
            let ghost pre_make = self.unique_table@;
            let res = self.make(ndx, lo, hi);
            proof {
                lemma_prefix_trans(old(self).unique_table@, pre_make, self.unique_table@);
            }
            Ok(res)
        }
    }

    /// Compiles one formula stream against the ordering and registers the
    /// resulting vertex as a root.
    pub fn build(&mut self, bool_expr: &Vec<Token>, ordering: &Vec<char>) -> (r: Result<
        (),
        &'static str,
    >)
        requires
            old(self).wf(),
            ordering@.len() < usize::MAX,
        ensures
            final(self).wf(),
            old(self).unique_table@.is_prefix_of(final(self).unique_table@),
            match r {
                Ok(_) => ({
                    let b = spec_build(old(self).unique_table@, bool_expr@, 1, ordering@);
                    &&& final(self).unique_table@ == b.0
                    &&& 0 <= b.1 <= usize::MAX
                    &&& final(self).roots@ == old(self).roots@.push(b.1 as usize)
                }),
                Err(_) => final(self).roots@ == old(self).roots@ && !bdd_stream_ok(
                    bool_expr@,
                    ordering@,
                ),
            },
            bdd_stream_ok(bool_expr@, ordering@) ==> r is Ok,
    {
        proof {
            assert(ordering@.skip(0) =~= ordering@);
        }
        let root = match self.build_helper(bool_expr, 1, ordering) {
            Ok(v) => v,
            Err(e) => {
                return Err(e);
            },
        };
        self.roots.push(root);
        Ok(())
    }

    /// What `init` builds: starting from the two sinks, each formula's
    /// diagram in turn, collecting the root vertices in order.
    pub open spec fn spec_init_fold(
        t: Seq<BDDInner>,
        roots: Seq<int>,
        exprs: Seq<crate::parser::Tokenized>,
        k: int,
        ord: Seq<char>,
    ) -> (Seq<BDDInner>, Seq<int>)
        decreases exprs.len() - k,
    {
        if k < 0 || k >= exprs.len() {
            (t, roots)
        } else {
            let b = spec_build(t, exprs[k].rpn@, 1, ord);
            BDDSession::spec_init_fold(b.0, roots.push(b.1), exprs, k + 1, ord)
        }
    }

    /// Builds one session from a parsing session: the ordering is the
    /// parser's first-seen symbol order, and every parsed formula is
    /// compiled in turn.
    pub fn init(input: &Parser) -> (r: Result<BDDSession, &'static str>)
        ensures
            match r {
                Ok(s) => {
                    let syms = order_syms(*input);
                    let fold = BDDSession::spec_init_fold(
                        seq![BDDInner::SINK(false), BDDInner::SINK(true)],
                        Seq::<int>::empty(),
                        input.exprs@,
                        0,
                        syms,
                    );
                    &&& s.wf()
                    &&& s.roots@.len() == input.exprs@.len()
                    &&& s.unique_table@ == fold.0
                    &&& s.roots@.map_values(|x: usize| x as int) == fold.1
                },
                Err(_) => true,
            },
            (order_syms(*input).len() < usize::MAX && forall|k: int|
                0 <= k < input.exprs@.len() ==> bdd_stream_ok(
                    #[trigger] input.exprs@[k].rpn@,
                    order_syms(*input),
                )) ==> r is Ok,
    {
        let ordering = ordering_keys(&input.ast_order);
        if ordering.len() == usize::MAX {
            return Err("too many variables");
        }
        let num_vars = ordering.len();
        let mut ret = BDDSession::init_test(num_vars);
        let ghost t0 = ret.unique_table@;
        let n_exprs = input.exprs.len();
        let mut k: usize = 0;
        proof {
            assert(t0 =~= seq![BDDInner::SINK(false), BDDInner::SINK(true)]);
            assert(ret.roots@.map_values(|x: usize| x as int) =~= Seq::<int>::empty());
        }
        while k < n_exprs
            invariant
                ret.wf(),
                n_exprs == input.exprs@.len(),
                0 <= k <= n_exprs,
                ordering@ == order_syms(*input),
                ordering@.len() < usize::MAX,
                ret.roots@.len() == k,
                BDDSession::spec_init_fold(
                    ret.unique_table@,
                    ret.roots@.map_values(|x: usize| x as int),
                    input.exprs@,
                    k as int,
                    ordering@,
                ) == BDDSession::spec_init_fold(
                    seq![BDDInner::SINK(false), BDDInner::SINK(true)],
                    Seq::<int>::empty(),
                    input.exprs@,
                    0,
                    ordering@,
                ),
            decreases n_exprs - k,
        {
            let ghost pre = ret.unique_table@;
            let ghost pre_roots = ret.roots@;
            let rpn_k = &input.exprs[k].rpn;
            proof {
                assert(rpn_k@ == input.exprs@[k as int].rpn@);
            }
            match ret.build(rpn_k, &ordering) {
                Ok(_) => {},
                Err(e) => {
                    return Err(e);
                },
            }
            proof {
                let b = spec_build(pre, input.exprs@[k as int].rpn@, 1, ordering@);
                assert(ret.unique_table@ == b.0);
                assert(ret.roots@ == pre_roots.push(b.1 as usize));
                assert(ret.roots@.map_values(|x: usize| x as int) =~= pre_roots.map_values(
                    |x: usize| x as int,
                ).push(b.1));
            }
            k = k + 1;
        }
        proof {
            assert(BDDSession::spec_init_fold(
                ret.unique_table@,
                ret.roots@.map_values(|x: usize| x as int),
                input.exprs@,
                n_exprs as int,
                ordering@,
            ) == (ret.unique_table@, ret.roots@.map_values(|x: usize| x as int)));
        }
        Ok(ret)
    }
}

proof fn lemma_node_find_prefix(t1: Seq<BDDInner>, t2: Seq<BDDInner>, c: BDDInner, i: int)
    requires
        t1.is_prefix_of(t2),
        0 <= i,
        node_find_from(t1, c, i) >= 0,
    ensures
        node_find_from(t2, c, i) == node_find_from(t1, c, i),
    decreases t1.len() - i,
{
    assert(t1[i] == t2.subrange(0, t1.len() as int)[i]);
    if t1[i] != c {
        lemma_node_find_prefix(t1, t2, c, i + 1);
    }
}

/// The builder only appends to the table.
proof fn lemma_build_extends(t: Seq<BDDInner>, e: Seq<Token>, ndx: int, ord: Seq<char>)
    ensures
        t.is_prefix_of(spec_build(t, e, ndx, ord).0),
    decreases ord.len() + 1 - ndx,
{
    assert(t =~= t.subrange(0, t.len() as int));
    if 1 <= ndx <= ord.len() {
        let ef = spec_sub(e, ord[ndx - 1], false);
        let et = spec_sub(e, ord[ndx - 1], true);
        lemma_build_extends(t, ef, ndx + 1, ord);
        let t1 = spec_build(t, ef, ndx + 1, ord).0;
        lemma_build_extends(t1, et, ndx + 1, ord);
        let t2 = spec_build(t1, et, ndx + 1, ord).0;
        assert(t2.is_prefix_of(spec_make_at(t2, ndx, spec_build(t, ef, ndx + 1, ord).1, spec_build(
            t1,
            et,
            ndx + 1,
            ord,
        ).1).0)) by {
            assert(t2 =~= t2.subrange(0, t2.len() as int));
            assert(t2 =~= t2.push(arbitrary()).subrange(0, t2.len() as int));
        }
        lemma_prefix_trans(t, t1, t2);
        lemma_prefix_trans(
            t,
            t2,
            spec_make_at(
                t2,
                ndx,
                spec_build(t, ef, ndx + 1, ord).1,
                spec_build(t1, et, ndx + 1, ord).1,
            ).0,
        );
    }
}

/// Substituting a stream's variables by constants keeps its shape valid.
proof fn lemma_sub_shape(e: Seq<Token>, i: int, depth: int, ord: Seq<char>, k: int, b: bool)
    requires
        0 <= i,
        0 <= k < ord.len(),
        bdd_stream_ok_from(e, i, depth, ord.skip(k)),
    ensures
        bdd_stream_ok_from(spec_sub(e, ord[k], b), i, depth, ord.skip(k + 1)),
    decreases e.len() - i,
{
    if 0 <= i < e.len() {
        match e[i] {
            Token::VAR(c) => {
                if c != ord[k] {
                    // the symbol stays a variable; it sits past position k
                    let m = choose|m: int| 0 <= m < ord.skip(k).len() && ord.skip(k)[m] == c;
                    assert(m >= 1);
                    assert(ord.skip(k + 1)[m - 1] == c);
                    assert(ord.skip(k + 1).contains(c));
                    lemma_sub_shape(e, i + 1, depth + 1, ord, k, b);
                } else {
                    lemma_sub_shape(e, i + 1, depth + 1, ord, k, b);
                }
            },
            Token::VAL(_) => {
                lemma_sub_shape(e, i + 1, depth + 1, ord, k, b);
            },
            Token::OP(op) => {
                if op is NOT {
                    lemma_sub_shape(e, i + 1, depth, ord, k, b);
                } else {
                    lemma_sub_shape(e, i + 1, depth - 1, ord, k, b);
                }
            },
            _ => {},
        }
    }
}

/// A shape-valid stream without variables evaluates successfully.
proof fn lemma_eval_some(e: Seq<Token>, i: int, depth: int, stack: Seq<bool>, allowed: Seq<char>)
    requires
        0 <= i,
        allowed.len() == 0,
        bdd_stream_ok_from(e, i, depth, allowed),
        stack.len() == depth,
    ensures
        rpn_eval_from(e, i, stack) is Some,
    decreases e.len() - i,
{
    if 0 <= i < e.len() {
        match e[i] {
            Token::VAL(v) => {
                lemma_eval_some(e, i + 1, depth + 1, stack.push(v), allowed);
            },
            Token::OP(op) => {
                if op is NOT {
                    lemma_eval_some(e, i + 1, depth, stack.drop_last().push(!stack.last()), allowed);
                } else {
                    let r = stack.last();
                    let l = stack.drop_last().last();
                    lemma_eval_some(
                        e,
                        i + 1,
                        depth - 1,
                        stack.drop_last().drop_last().push(op_bool(op, l, r)),
                        allowed,
                    );
                }
            },
            _ => {},
        }
    }
}

/// The function of a vertex is unchanged by growing the table.
proof fn lemma_eval_prefix(t1: Seq<BDDInner>, t2: Seq<BDDInner>, i: int, a: Seq<bool>)
    requires
        t1.is_prefix_of(t2),
        0 <= i < t1.len(),
    ensures
        eval_node(t2, i, a) == eval_node(t1, i, a),
    decreases i,
{
    assert(t1[i] == t2.subrange(0, t1.len() as int)[i]);
    match t1[i] {
        BDDInner::SINK(_) => {},
        BDDInner::VAR(v) => {
            if v.lo < i && v.hi < i && 1 <= v.var <= a.len() {
                lemma_eval_prefix(t1, t2, v.lo as int, a);
                lemma_eval_prefix(t1, t2, v.hi as int, a);
            }
        },
    }
}

/// The builder adds at most `2^(levels remaining) - 1` vertices.
proof fn lemma_build_size(t: Seq<BDDInner>, e: Seq<Token>, ndx: int, ord: Seq<char>)
    requires
        1 <= ndx <= ord.len() + 1,
    ensures
        spec_build(t, e, ndx, ord).0.len() <= t.len() + pow2((ord.len() + 2 - ndx) as nat) - 1,
    decreases ord.len() + 1 - ndx,
{
    lemma_pow2_pos((ord.len() + 2 - ndx) as nat);
    if ndx <= ord.len() {
        let ef = spec_sub(e, ord[ndx - 1], false);
        let et = spec_sub(e, ord[ndx - 1], true);
        lemma_build_size(t, ef, ndx + 1, ord);
        let t1 = spec_build(t, ef, ndx + 1, ord).0;
        lemma_build_size(t1, et, ndx + 1, ord);
        lemma_pow2_unfold((ord.len() + 2 - ndx) as nat);
    }
}

/// The table stays within machine-index range through one build.
proof fn lemma_size_chain(t: Seq<BDDInner>, ndx: int, ord: Seq<char>)
    requires
        1 <= ndx <= ord.len(),
        t.len() + pow2((ord.len() + 2 - ndx) as nat) <= usize::MAX as int,
    ensures
        t.len() + pow2((ord.len() + 1 - ndx) as nat) <= usize::MAX as int,
        t.len() + pow2((ord.len() + 2 - ndx) as nat) - 1 + pow2((ord.len() + 1 - ndx) as nat)
            <= usize::MAX as int + pow2((ord.len() + 1 - ndx) as nat),
        pow2((ord.len() + 2 - ndx) as nat) == 2 * pow2((ord.len() + 1 - ndx) as nat),
        pow2((ord.len() + 1 - ndx) as nat) >= 1,
{
    lemma_pow2_unfold((ord.len() + 2 - ndx) as nat);
    lemma_pow2_pos((ord.len() + 1 - ndx) as nat);
}

/// The builder keeps the table well formed and returns a vertex of it.
proof fn lemma_build_wf(t: Seq<BDDInner>, e: Seq<Token>, ndx: int, ord: Seq<char>)
    requires
        wf_table(t),
        1 <= ndx <= ord.len() + 1,
        ord.len() < usize::MAX as int,
        t.len() + pow2((ord.len() + 2 - ndx) as nat) <= usize::MAX as int,
        bdd_stream_ok(e, ord.skip(ndx - 1)),
    ensures
        wf_table(spec_build(t, e, ndx, ord).0),
        0 <= spec_build(t, e, ndx, ord).1 < spec_build(t, e, ndx, ord).0.len(),
    decreases ord.len() + 1 - ndx,
{
    if ndx == ord.len() + 1 {
        assert(ord.skip(ndx - 1).len() == 0);
        lemma_eval_some(e, 0, 0, Seq::empty(), ord.skip(ndx - 1));
    } else {
        let ef = spec_sub(e, ord[ndx - 1], false);
        let et = spec_sub(e, ord[ndx - 1], true);
        lemma_sub_shape(e, 0, 0, ord, ndx - 1, false);
        lemma_sub_shape(e, 0, 0, ord, ndx - 1, true);
        assert(ord.skip(ndx - 1)[0] == ord[ndx - 1]);
        lemma_size_chain(t, ndx, ord);
        lemma_build_size(t, ef, ndx + 1, ord);
        lemma_build_wf(t, ef, ndx + 1, ord);
        let b1 = spec_build(t, ef, ndx + 1, ord);
        lemma_build_size(b1.0, et, ndx + 1, ord);
        lemma_build_wf(b1.0, et, ndx + 1, ord);
        let b2 = spec_build(b1.0, et, ndx + 1, ord);
        lemma_build_extends(b1.0, et, ndx + 1, ord);
        let lo1 = b1.1;
        let hi1 = b2.1;
        assert(lo1 < b2.0.len());
        if lo1 != hi1 {
            let c = BDDInner::VAR(
                VarNode { var: ndx as usize, lo: lo1 as usize, hi: hi1 as usize },
            );
            lemma_node_find_none_iff(b2.0, c, 0);
            let f = node_find_from(b2.0, c, 0);
            if f == -1 {
                let t3 = b2.0.push(c);
                assert forall|i: int| 2 <= i < t3.len() implies #[trigger] wf_node(t3, i) by {
                    if i < b2.0.len() {
                        assert(wf_node(b2.0, i));
                    }
                }
            }
        }
    }
}

/// Two streams that agree as Boolean functions of the remaining variables
/// compile to the same vertex, and the second compilation (against any
/// store already holding the first's vertices) creates nothing new.
#[verifier::rlimit(100)]
proof fn lemma_build_agree(
    t: Seq<BDDInner>,
    big: Seq<BDDInner>,
    e1: Seq<Token>,
    e2: Seq<Token>,
    ndx: int,
    ord: Seq<char>,
)
    requires
        wf_table(t),
        wf_table(big),
        1 <= ndx <= ord.len() + 1,
        ord.len() < usize::MAX as int,
        t.len() + pow2((ord.len() + 2 - ndx) as nat) <= usize::MAX as int,
        spec_build(t, e1, ndx, ord).0.is_prefix_of(big),
        bdd_stream_ok(e1, ord.skip(ndx - 1)),
        bdd_stream_ok(e2, ord.skip(ndx - 1)),
        forall|b: Seq<bool>|
            b.len() == ord.len() + 1 - ndx ==> #[trigger] rpn_eval(subst_tail(e1, ord, b, ndx))
                == rpn_eval(subst_tail(e2, ord, b, ndx)),
    ensures
        spec_build(big, e2, ndx, ord) == (big, spec_build(t, e1, ndx, ord).1),
    decreases ord.len() + 1 - ndx,
{
    if ndx == ord.len() + 1 {
        let b0 = Seq::<bool>::empty();
        assert(rpn_eval(subst_tail(e1, ord, b0, ndx)) == rpn_eval(subst_tail(e2, ord, b0, ndx)));
        assert(subst_tail(e1, ord, b0, ndx) == e1);
        assert(subst_tail(e2, ord, b0, ndx) == e2);
        assert(ord.skip(ndx - 1).len() == 0);
        lemma_eval_some(e1, 0, 0, Seq::empty(), ord.skip(ndx - 1));
        lemma_eval_some(e2, 0, 0, Seq::empty(), ord.skip(ndx - 1));
    } else {
        let c0 = ord[ndx - 1];
        let e1f = spec_sub(e1, c0, false);
        let e1t = spec_sub(e1, c0, true);
        let e2f = spec_sub(e2, c0, false);
        let e2t = spec_sub(e2, c0, true);
        lemma_sub_shape(e1, 0, 0, ord, ndx - 1, false);
        lemma_sub_shape(e1, 0, 0, ord, ndx - 1, true);
        lemma_sub_shape(e2, 0, 0, ord, ndx - 1, false);
        lemma_sub_shape(e2, 0, 0, ord, ndx - 1, true);
        let b1 = spec_build(t, e1f, ndx + 1, ord);
        let b2 = spec_build(b1.0, e1t, ndx + 1, ord);
        let b3 = spec_make_at(b2.0, ndx, b1.1, b2.1);
        lemma_size_chain(t, ndx, ord);
        lemma_build_size(t, e1f, ndx + 1, ord);
        lemma_build_size(b1.0, e1t, ndx + 1, ord);
        lemma_build_wf(t, e1f, ndx + 1, ord);
        lemma_build_wf(b1.0, e1t, ndx + 1, ord);
        lemma_build_extends(t, e1f, ndx + 1, ord);
        lemma_build_extends(b1.0, e1t, ndx + 1, ord);
        assert(b2.0.is_prefix_of(b3.0)) by {
            assert(b2.0 =~= b2.0.subrange(0, b2.0.len() as int));
            if b1.1 != b2.1 {
                let c = BDDInner::VAR(
                    VarNode { var: ndx as usize, lo: b1.1 as usize, hi: b2.1 as usize },
                );
                assert(b2.0 =~= b2.0.push(c).subrange(0, b2.0.len() as int));
            }
        }
        lemma_prefix_trans(b1.0, b2.0, b3.0);
        lemma_prefix_trans(b1.0, b3.0, big);
        lemma_prefix_trans(b2.0, b3.0, big);
        // the semantic premise specialises to each cofactor branch
        assert forall|bb: Seq<bool>| bb.len() == ord.len() + 1 - (ndx + 1) implies #[trigger]
            rpn_eval(subst_tail(e1f, ord, bb, ndx + 1)) == rpn_eval(
            subst_tail(e2f, ord, bb, ndx + 1),
        ) by {
            let b = seq![false].add(bb);
            assert(b.len() == ord.len() + 1 - ndx);
            assert(b[0] == false);
            assert(b.drop_first() =~= bb);
            assert(rpn_eval(subst_tail(e1, ord, b, ndx)) == rpn_eval(subst_tail(e2, ord, b, ndx)));
            assert(subst_tail(e1, ord, b, ndx) == subst_tail(e1f, ord, bb, ndx + 1));
            assert(subst_tail(e2, ord, b, ndx) == subst_tail(e2f, ord, bb, ndx + 1));
        }
        assert forall|bb: Seq<bool>| bb.len() == ord.len() + 1 - (ndx + 1) implies #[trigger]
            rpn_eval(subst_tail(e1t, ord, bb, ndx + 1)) == rpn_eval(
            subst_tail(e2t, ord, bb, ndx + 1),
        ) by {
            let b = seq![true].add(bb);
            assert(b.len() == ord.len() + 1 - ndx);
            assert(b[0] == true);
            assert(b.drop_first() =~= bb);
            assert(rpn_eval(subst_tail(e1, ord, b, ndx)) == rpn_eval(subst_tail(e2, ord, b, ndx)));
            assert(subst_tail(e1, ord, b, ndx) == subst_tail(e1t, ord, bb, ndx + 1));
            assert(subst_tail(e2, ord, b, ndx) == subst_tail(e2t, ord, bb, ndx + 1));
        }
        lemma_build_agree(t, big, e1f, e2f, ndx + 1, ord);
        lemma_build_agree(b1.0, big, e1t, e2t, ndx + 1, ord);
        // both cofactors of e2 resolve in `big` to the vertices of e1's build
        let lo1 = b1.1;
        let hi1 = b2.1;
        if lo1 == hi1 {
        } else {
            let c = BDDInner::VAR(VarNode { var: ndx as usize, lo: lo1 as usize, hi: hi1 as usize });
            lemma_node_find_none_iff(b2.0, c, 0);
            let f = node_find_from(b2.0, c, 0);
            if f >= 0 {
                lemma_node_find_prefix(b2.0, big, c, 0);
            } else {
                // the first build appended `c`; in `big` its first
                // occurrence is exactly there
                assert(big[b2.0.len() as int] == c) by {
                    assert(b3.0[b2.0.len() as int] == c);
                    assert(b3.0[b2.0.len() as int] == big.subrange(
                        0,
                        b3.0.len() as int,
                    )[b2.0.len() as int]);
                }
                assert forall|j: int| 0 <= j < b2.0.len() implies big[j] != c by {
                    assert(b2.0[j] == big.subrange(0, b2.0.len() as int)[j]);
                }
                lemma_node_find_found(big, c, 0, b2.0.len() as int);
            }
        }
    }
}

/// Soundness of the builder: the vertex it returns computes, under any
/// full assignment, exactly the truth value of the stream with the
/// remaining variables substituted by that assignment.
#[verifier::rlimit(100)]
proof fn lemma_build_sound(t: Seq<BDDInner>, e: Seq<Token>, ndx: int, ord: Seq<char>, a: Seq<bool>)
    requires
        wf_table(t),
        1 <= ndx <= ord.len() + 1,
        ord.len() < usize::MAX as int,
        t.len() + pow2((ord.len() + 2 - ndx) as nat) <= usize::MAX as int,
        bdd_stream_ok(e, ord.skip(ndx - 1)),
        a.len() == ord.len(),
    ensures
        ({
            let br = spec_build(t, e, ndx, ord);
            rpn_eval(subst_tail(e, ord, a.skip(ndx - 1), ndx)) == Some(eval_node(br.0, br.1, a))
        }),
    decreases ord.len() + 1 - ndx,
{
    if ndx == ord.len() + 1 {
        assert(a.skip(ndx - 1).len() == 0);
        assert(subst_tail(e, ord, a.skip(ndx - 1), ndx) == e);
        assert(ord.skip(ndx - 1).len() == 0);
        lemma_eval_some(e, 0, 0, Seq::empty(), ord.skip(ndx - 1));
    } else {
        let c0 = ord[ndx - 1];
        let v0 = a[ndx - 1];
        let ef = spec_sub(e, c0, false);
        let et = spec_sub(e, c0, true);
        lemma_sub_shape(e, 0, 0, ord, ndx - 1, false);
        lemma_sub_shape(e, 0, 0, ord, ndx - 1, true);
        let b1 = spec_build(t, ef, ndx + 1, ord);
        let b2 = spec_build(b1.0, et, ndx + 1, ord);
        let b3 = spec_make_at(b2.0, ndx, b1.1, b2.1);
        lemma_size_chain(t, ndx, ord);
        lemma_build_size(t, ef, ndx + 1, ord);
        lemma_build_size(b1.0, et, ndx + 1, ord);
        lemma_build_wf(t, ef, ndx + 1, ord);
        lemma_build_wf(b1.0, et, ndx + 1, ord);
        lemma_build_extends(b1.0, et, ndx + 1, ord);
        lemma_build_sound(t, ef, ndx + 1, ord, a);
        lemma_build_sound(b1.0, et, ndx + 1, ord, a);
        assert(b2.0.is_prefix_of(b3.0)) by {
            assert(b2.0 =~= b2.0.subrange(0, b2.0.len() as int));
            if b1.1 != b2.1 {
                let c = BDDInner::VAR(
                    VarNode { var: ndx as usize, lo: b1.1 as usize, hi: b2.1 as usize },
                );
                assert(b2.0 =~= b2.0.push(c).subrange(0, b2.0.len() as int));
            }
        }
        lemma_prefix_trans(b1.0, b2.0, b3.0);
        // the remaining assignment splits into its head and tail
        let tail = a.skip(ndx - 1);
        assert(tail[0] == v0);
        assert(tail.drop_first() =~= a.skip(ndx));
        assert(subst_tail(e, ord, tail, ndx) == subst_tail(
            spec_sub(e, c0, v0),
            ord,
            a.skip(ndx),
            ndx + 1,
        ));
        lemma_eval_prefix(b1.0, b2.0, b1.1, a);
        lemma_eval_prefix(b1.0, b3.0, b1.1, a);
        lemma_eval_prefix(b2.0, b3.0, b2.1, a);
        if b1.1 == b2.1 {
            // reduction: the vertex is the shared child, whatever the head
        } else {
            let c = BDDInner::VAR(
                VarNode { var: ndx as usize, lo: b1.1 as usize, hi: b2.1 as usize },
            );
            lemma_node_find_none_iff(b2.0, c, 0);
            let f = node_find_from(b2.0, c, 0);
            if f >= 0 {
                assert(b2.0[f] == c);
                assert(f >= 2) by {
                    if f < 2 {
                        assert(b2.0[f] == BDDInner::SINK(f == 1));
                    }
                }
                assert(wf_node(b2.0, f));
            } else {
                assert(b3.0[b2.0.len() as int] == c);
            }
        }
    }
}

/// Canonicity: two shape-valid RPN streams over the same variable
/// ordering compile (one after the other, in a shared session) to the
/// same vertex exactly when they denote the same Boolean function of the
/// declared variables.
pub proof fn law_canonicity(t: Seq<BDDInner>, ord: Seq<char>, e1: Seq<Token>, e2: Seq<Token>)
    requires
        wf_table(t),
        ord.len() < usize::MAX as int,
        t.len() + pow2((ord.len() + 2) as nat) <= usize::MAX as int,
        bdd_stream_ok(e1, ord),
        bdd_stream_ok(e2, ord),
    ensures
        ({
            let r1 = spec_build(t, e1, 1, ord);
            let r2 = spec_build(r1.0, e2, 1, ord);
            (r1.1 == r2.1) <==> (forall|a: Seq<bool>|
                a.len() == ord.len() ==> stream_sem(e1, ord, a) == stream_sem(e2, ord, a))
        }),
{
    let r1 = spec_build(t, e1, 1, ord);
    let r2 = spec_build(r1.0, e2, 1, ord);
    assert(ord.skip(0) =~= ord);
    lemma_pow2_unfold((ord.len() + 2) as nat);
    lemma_pow2_pos((ord.len() + 1) as nat);
    lemma_build_size(t, e1, 1, ord);
    lemma_build_wf(t, e1, 1, ord);
    lemma_build_wf(r1.0, e2, 1, ord);
    lemma_build_extends(t, e1, 1, ord);
    lemma_build_extends(r1.0, e2, 1, ord);
    if forall|a: Seq<bool>|
        a.len() == ord.len() ==> #[trigger] stream_sem(e1, ord, a) == stream_sem(e2, ord, a) {
        assert forall|b: Seq<bool>|
            b.len() == ord.len() + 1 - 1 implies #[trigger] rpn_eval(subst_tail(e1, ord, b, 1))
            == rpn_eval(subst_tail(e2, ord, b, 1)) by {
            assert(stream_sem(e1, ord, b) == stream_sem(e2, ord, b));
        }
        assert(r1.0.is_prefix_of(r1.0)) by {
            assert(r1.0 =~= r1.0.subrange(0, r1.0.len() as int));
        }
        lemma_build_agree(t, r1.0, e1, e2, 1, ord);
        assert(r2 == (r1.0, r1.1));
    }
    if r1.1 == r2.1 {
        assert forall|a: Seq<bool>| a.len() == ord.len() implies #[trigger] stream_sem(e1, ord, a)
            == stream_sem(e2, ord, a) by {
            lemma_build_sound(t, e1, 1, ord, a);
            lemma_build_sound(r1.0, e2, 1, ord, a);
            assert(a.skip(0) =~= a);
            lemma_eval_prefix(r1.0, r2.0, r1.1, a);
        }
    }
}

/// A copy of a stream with one variable replaced by a constant.
pub fn sub_constant(bool_expr: &Vec<Token>, var: char, sub: bool) -> (r: Vec<Token>)
    ensures
        r@ == spec_sub(bool_expr@, var, sub),
{
    let n = bool_expr.len();
    let mut out: Vec<Token> = Vec::with_capacity(n);
    let mut i: usize = 0;
    while i < n
        invariant
            n == bool_expr@.len(),
            0 <= i <= n,
            out@.len() == i,
            forall|j: int| 0 <= j < i ==> out@[j] == subst_token(bool_expr@[j], var, sub),
        decreases n - i,
    {
        let t = bool_expr[i];
        match t {
            Token::VAR(c) => {
                if c == var {
                    out.push(Token::VAL(sub));
                } else {
                    out.push(t);
                }
            },
            _ => {
                out.push(t);
            },
        }
        i = i + 1;
    }
    proof {
        assert(out@ =~= spec_sub(bool_expr@, var, sub));
    }
    out
}

/// Evaluates a post-order stream of constants and operators with an
/// operand stack. Streams with remaining variables, stray parentheses or
/// a mismatched operand count are usage errors.
pub fn eval_expr(expr: &Vec<Token>) -> (r: Result<bool, &'static str>)
    ensures
        match r {
            Ok(b) => rpn_eval(expr@) == Some(b),
            Err(_) => rpn_eval(expr@) is None,
        },
{
    let mut eval_stack: Vec<bool> = Vec::new();
    let n = expr.len();
    let mut i: usize = 0;
    while i < n
        invariant
            n == expr@.len(),
            0 <= i <= n,
            rpn_eval_from(expr@, i as int, eval_stack@) == rpn_eval(expr@),
        decreases n - i,
    {
        let token = expr[i];
        match token {
            Token::VAL(b) => {
                eval_stack.push(b);
            },
            Token::OP(o) => {
                if matches!(o, Operator::NOT) {
                    let val = match eval_stack.pop() {
                        Some(v) => v,
                        None => {
                            return Err("NOT without val in eval_stack");
                        },
                    };
                    eval_stack.push(!val);
                } else {
                    let right_val = match eval_stack.pop() {
                        Some(v) => v,
                        None => {
                            return Err("Bin op with 0 arguments");
                        },
                    };
                    let left_val = match eval_stack.pop() {
                        Some(v) => v,
                        None => {
                            return Err("Bin op with only 1 argument");
                        },
                    };
                    match o {
                        Operator::AND => eval_stack.push(right_val && left_val),
                        Operator::OR => eval_stack.push(right_val || left_val),
                        Operator::XOR => eval_stack.push(right_val != left_val),
                        Operator::NOT => {
                            return Err("Non-operator token found");
                        },
                    }
                }
            },
            _ => {
                return Err("Variable found in evaluation");
            },
        }
        i = i + 1;
    }
    if eval_stack.len() != 1 {
        return Err("Unbalanced evaluation of expr");
    }
    match eval_stack.pop() {
        Some(v) => Ok(v),
        None => Err("Unbalanced evaluation of expr"),
    }
}

} // verus!
