//! The core ROBDD engine: a vertex store with hash-consing and complement
//! edges, recursive reference counting, and the memoized binary `apply`
//! algorithm over two root edges.
//!
//! Edges are signed integers: the magnitude is a vertex id (ids start at 1,
//! id 1 is the shared terminal), the sign is the polarity. Edge `1` is the
//! TRUE terminal, `-1` is FALSE. The store keeps every vertex in an arena
//! indexed by `id - 1`; a vertex's children always carry smaller ids, every
//! stored `hi` child is positive (complement normalization), and no two
//! stored vertices have equal content (maximal sharing).

use vstd::prelude::*;

verus! {

use crate::parser::{Operator, Parser, Token, Tokenized};
use crate::ordering_map::{
    entries_has_key, entries_lookup, lemma_lookup_none, lemma_lookup_some_is_entry, map_entries,
    ordering_get,
};
use linked_hash_map::LinkedHashMap;
use vstd::arithmetic::mul::lemma_mul_inequality;
use vstd::arithmetic::power2::{lemma_pow2_adds, lemma_pow2_pos, lemma_pow2_unfold, pow2};

/// A signed reference to a vertex: magnitude = vertex id, negative sign =
/// logical complement of the referenced vertex's function.
pub type Edge = i64;

/// Largest number of vertices a store may hold, so that every id and its
/// negation fit in an `Edge`.
pub const MAX_VERTICES: u64 = 0x7fff_ffff_ffff_fffe;

/// One stored vertex. The terminal is `var = 0` (children unused, kept 0);
/// internal vertices have `var >= 1` and two child edges.
#[derive(Debug, Clone, Copy, PartialEq, Eq, Structural)]
pub struct Vertex {
    pub var: i64,
    pub lo: Edge,
    pub hi: Edge,
}

/// Key of the computed cache: one memoized `apply` sub-problem.
#[derive(Debug, Clone, Copy, PartialEq, Eq, Structural)]
pub struct Expr {
    pub op: Operator,
    pub lhs: Edge,
    pub rhs: Edge,
}

/// Errors of the engine. The first group are usage errors (bad input,
/// always recoverable); the second are internal-consistency conditions,
/// reported as values rather than aborting the process.
#[derive(Debug, Clone, Copy, PartialEq, Eq, Structural)]
pub enum BddError {
    DuplicateVariable,
    UnknownVariable,
    EmptyExpression,
    UnbalancedExpression,
    UnexpectedToken,
    NotInBinaryApply,
    MissingVertex,
    OrderingViolation,
    RefCountUnderflow,
    CapacityExceeded,
}

/// One equivalence-checking session: the vertex arena (`nodes[i]` has id
/// `i + 1`; `nodes[0]` is the terminal), per-vertex reference counts, the
/// root edge of each compiled formula, the memo table of `apply`, the count
/// of vertices whose reference count has reached zero, and the variable
/// ordering (`ordering[p]` is the symbol at zero-based position `p`; the
/// vertex variable number for position `p` is `p + 1`).
#[derive(Debug, Clone, PartialEq)]
pub struct BDD {
    pub nodes: Vec<Vertex>,
    pub ref_counts: Vec<usize>,
    pub roots: Vec<Edge>,
    pub computed_cache: Vec<(Expr, Edge)>,
    pub dead_count: usize,
    pub ordering: Vec<char>,
}

/// Magnitude of an edge value.
pub open spec fn eabs(e: int) -> int {
    if e >= 0 {
        e
    } else {
        -e
    }
}

/// The edge references a vertex that exists in the arena.
pub open spec fn edge_ok(nodes: Seq<Vertex>, e: Edge) -> bool {
    1 <= eabs(e as int) <= nodes.len()
}

/// The edge references the terminal vertex.
pub open spec fn edge_terminal(e: Edge) -> bool {
    eabs(e as int) == 1
}

/// Variable number of the vertex an edge references.
pub open spec fn node_var(nodes: Seq<Vertex>, e: Edge) -> int {
    nodes[eabs(e as int) - 1].var as int
}

/// The vertex an edge references.
pub open spec fn node_of(nodes: Seq<Vertex>, e: Edge) -> Vertex {
    nodes[eabs(e as int) - 1]
}

/// Well-formedness of the internal vertex stored at arena index `i`:
/// a positive (never complemented) `hi` child, two distinct children that
/// both precede it in the arena, and children that reference strictly
/// later variables.
pub open spec fn wf_vertex_in(nodes: Seq<Vertex>, i: int) -> bool {
    let v = nodes[i];
    &&& 1 <= v.var
    &&& v.lo != v.hi
    &&& 1 <= v.hi <= i
    &&& 1 <= eabs(v.lo as int) <= i
    &&& (eabs(v.lo as int) > 1 ==> nodes[eabs(v.lo as int) - 1].var > v.var)
    &&& (v.hi > 1 ==> nodes[v.hi as int - 1].var > v.var)
}

/// Well-formedness of one computed-cache entry: both operands are distinct
/// internal vertices (the special cases of `apply` are never cached), the
/// operator is binary, and the stored result respects the variable bound
/// that `apply` guarantees.
pub open spec fn wf_cache_entry(nodes: Seq<Vertex>, x: Expr, r: Edge) -> bool {
    &&& edge_ok(nodes, x.lhs) && edge_ok(nodes, x.rhs) && edge_ok(nodes, r)
    &&& eabs(x.lhs as int) >= 2 && eabs(x.rhs as int) >= 2
    &&& eabs(x.lhs as int) != eabs(x.rhs as int)
    &&& !(x.op is NOT)
    &&& (edge_terminal(r) || node_var(nodes, r) >= min_op_var(nodes, x.lhs, x.rhs))
    &&& cache_entry_sound(nodes, x, r)
}

/// A memoized result denotes the operator applied to its operands'
/// functions, under every assignment. Kept opaque so that the store
/// invariant does not flood unrelated proofs with quantifiers.
#[verifier::opaque]
pub open spec fn cache_entry_sound(nodes: Seq<Vertex>, x: Expr, r: Edge) -> bool {
    forall|a: Seq<bool>|
        #[trigger] eval_edge(nodes, r, a) == op_bool(
            x.op,
            eval_edge(nodes, x.lhs, a),
            eval_edge(nodes, x.rhs, a),
        )
}

/// The smaller variable number among the non-terminal operands (terminals
/// take no part in Shannon expansion).
pub open spec fn min_op_var(nodes: Seq<Vertex>, l: Edge, r: Edge) -> int {
    if edge_terminal(l) && edge_terminal(r) {
        0
    } else if edge_terminal(l) {
        node_var(nodes, r)
    } else if edge_terminal(r) {
        node_var(nodes, l)
    } else if node_var(nodes, l) <= node_var(nodes, r) {
        node_var(nodes, l)
    } else {
        node_var(nodes, r)
    }
}

/// Every internal vertex has a variable number at most `n`.
pub open spec fn vars_le(nodes: Seq<Vertex>, n: int) -> bool {
    forall|i: int| 1 <= i < nodes.len() ==> #[trigger] nodes[i].var <= n
}

/// First arena index `>= i` holding exactly the content `c`, or `-1`.
pub open spec fn find_from(s: Seq<Vertex>, c: Vertex, i: int) -> int
    decreases s.len() - i,
{
    if i < 0 || i >= s.len() {
        -1
    } else if s[i] == c {
        i
    } else {
        find_from(s, c, i + 1)
    }
}

/// Number of zero entries of `s` at indices `>= i` (index 0, the terminal,
/// is skipped by starting at 1).
pub open spec fn count_zeros_from(s: Seq<usize>, i: int) -> int
    decreases s.len() - i,
{
    if i < 0 || i >= s.len() {
        0
    } else {
        (if s[i] == 0 {
            1int
        } else {
            0int
        }) + count_zeros_from(s, i + 1)
    }
}

/// The normalized content `make` stores for the children `lo`, `hi`:
/// if `hi` is negative both children are negated, so that the stored `hi`
/// is positive and the complement moves into the returned edge's sign.
pub open spec fn spec_normalize(var: i64, lo: Edge, hi: Edge) -> Vertex {
    if hi < 0 {
        Vertex { var, lo: (-(lo as int)) as i64, hi: (-(hi as int)) as i64 }
    } else {
        Vertex { var, lo, hi }
    }
}

/// The terminal edge for a Boolean constant: TRUE is `1`, FALSE is `-1`.
pub open spec fn const_edge(b: bool) -> Edge {
    if b {
        1i64
    } else {
        -1i64
    }
}

/// Whether an error reports resource exhaustion (a full store or counter)
/// rather than a usage or consistency condition.
pub open spec fn is_resource_err(e: BddError) -> bool {
    e == BddError::CapacityExceeded || e == BddError::RefCountUnderflow
}

/// Truth table of the binary operators (`NOT` is never given to `apply`).
pub open spec fn op_bool(op: Operator, a: bool, b: bool) -> bool {
    match op {
        Operator::AND => a && b,
        Operator::OR => a || b,
        Operator::XOR => a != b,
        Operator::NOT => false,
    }
}

impl BDD {
    /// Number of vertices in the arena, terminal included.
    pub open spec fn n(self) -> int {
        self.nodes@.len() as int
    }

    pub open spec fn valid_edge(self, e: Edge) -> bool {
        edge_ok(self.nodes@, e)
    }

    pub open spec fn is_terminal(self, e: Edge) -> bool {
        edge_terminal(e)
    }

    pub open spec fn var_of(self, e: Edge) -> int {
        node_var(self.nodes@, e)
    }

    pub open spec fn vertex_of(self, e: Edge) -> Vertex {
        node_of(self.nodes@, e)
    }

    pub open spec fn vars_within(self, n: int) -> bool {
        vars_le(self.nodes@, n)
    }

    /// Number of internal vertices whose reference count is zero.
    pub open spec fn dead_vertices(self) -> int {
        count_zeros_from(self.ref_counts@, 1)
    }

    /// Difference between the session's dead counter and the number of
    /// vertices that are actually dead. `new` starts it at zero; every
    /// `dec_ref` keeps it exactly, and it only grows when a dead vertex is
    /// brought back by a hash-consing or cache hit.
    pub open spec fn acct(self) -> int {
        self.dead_count as int - self.dead_vertices()
    }

    /// The store's invariant (complement normalization, maximal sharing,
    /// ordered children, exact arena/ref-count correspondence).
    pub open spec fn wf(self) -> bool {
        &&& 1 <= self.nodes@.len() <= MAX_VERTICES as int
        &&& self.nodes@[0] == (Vertex { var: 0, lo: 0, hi: 0 })
        &&& self.ref_counts@.len() == self.nodes@.len()
        &&& self.ref_counts@[0] == 0
        &&& forall|i: int| 1 <= i < self.nodes@.len() ==> #[trigger] wf_vertex_in(self.nodes@, i)
        &&& forall|i: int, j: int|
            1 <= i < j < self.nodes@.len() ==> self.nodes@[i] != self.nodes@[j]
        &&& forall|k: int|
            0 <= k < self.computed_cache@.len() ==> #[trigger] wf_cache_entry(
                self.nodes@,
                self.computed_cache@[k].0,
                self.computed_cache@[k].1,
            )
        &&& forall|k: int|
            0 <= k < self.roots@.len() ==> edge_ok(self.nodes@, #[trigger] self.roots@[k])
        &&& forall|i: int, j: int|
            0 <= i < j < self.ordering@.len() ==> self.ordering@[i] != self.ordering@[j]
    }

    /// Arguments on which `make` may build a vertex without breaking the
    /// store's invariant.
    pub open spec fn make_args_ok(self, var: i64, lo: Edge, hi: Edge) -> bool {
        &&& 1 <= var
        &&& self.valid_edge(lo) && self.valid_edge(hi)
        &&& (!self.is_terminal(lo) ==> self.var_of(lo) > var)
        &&& (!self.is_terminal(hi) ==> self.var_of(hi) > var)
    }

    /// A fresh session: only the terminal vertex (id 1), no roots, no
    /// cached results, no variables, nothing dead.
    pub fn new() -> (r: BDD)
        ensures
            r.wf(),
            r.nodes@ =~= seq![Vertex { var: 0, lo: 0, hi: 0 }],
            r.ref_counts@ =~= seq![0usize],
            r.roots@.len() == 0,
            r.computed_cache@.len() == 0,
            r.dead_count == 0,
            r.ordering@.len() == 0,
            r.acct() == 0,
    {
        let mut nodes: Vec<Vertex> = Vec::new();
        nodes.push(Vertex { var: 0, lo: 0, hi: 0 });
        let mut ref_counts: Vec<usize> = Vec::new();
        ref_counts.push(0);
        BDD {
            nodes,
            ref_counts,
            roots: Vec::new(),
            computed_cache: Vec::new(),
            dead_count: 0,
            ordering: Vec::new(),
        }
    }
}

/// Magnitude of an edge as an `Edge` value.
fn edge_abs(e: Edge) -> (r: i64)
    requires
        e != i64::MIN,
    ensures
        r as int == eabs(e as int),
{
    if e < 0 {
        -e
    } else {
        e
    }
}

/// The terminal edge for a Boolean constant.
pub fn get_const_id(val: bool) -> (r: Edge)
    ensures
        r == const_edge(val),
{
    if val {
        1
    } else {
        -1
    }
}

/// The Boolean a terminal edge stands for.
pub fn get_id_bool(val: Edge) -> (r: bool)
    ensures
        r == (val == 1),
{
    val == 1
}

proof fn lemma_count_zeros_update(s: Seq<usize>, i: int, k: int, v: usize)
    requires
        0 <= k < s.len(),
        0 <= i,
    ensures
        count_zeros_from(s.update(k, v), i) == count_zeros_from(s, i) + if i <= k {
            (if v == 0 {
                1int
            } else {
                0int
            }) - (if s[k] == 0 {
                1int
            } else {
                0int
            })
        } else {
            0int
        },
    decreases s.len() - i,
{
    if i < s.len() {
        lemma_count_zeros_update(s, i + 1, k, v);
    }
}

proof fn lemma_count_zeros_push(s: Seq<usize>, i: int, v: usize)
    requires
        0 <= i,
    ensures
        count_zeros_from(s.push(v), i) == count_zeros_from(s, i) + if i <= s.len() && v == 0 {
            1int
        } else {
            0int
        },
    decreases s.len() - i,
{
    if i < s.len() {
        assert(s.push(v)[i] == s[i]);
        lemma_count_zeros_push(s, i + 1, v);
    } else if i == s.len() {
        assert(count_zeros_from(s.push(v), i + 1) == 0);
    }
}

proof fn lemma_find_from_none(s: Seq<Vertex>, c: Vertex, i: int)
    requires
        0 <= i,
        forall|j: int| i <= j < s.len() ==> s[j] != c,
    ensures
        find_from(s, c, i) == -1,
    decreases s.len() - i,
{
    if i < s.len() {
        lemma_find_from_none(s, c, i + 1);
    }
}

proof fn lemma_find_from_found(s: Seq<Vertex>, c: Vertex, i: int, k: int)
    requires
        0 <= i <= k < s.len(),
        s[k] == c,
        forall|j: int| i <= j < k ==> s[j] != c,
    ensures
        find_from(s, c, i) == k,
    decreases k - i,
{
    if i < k {
        lemma_find_from_found(s, c, i + 1, k);
    }
}

/// The value an assignment gives to the 1-based variable number `v`
/// (positions beyond the assignment read as FALSE).
pub open spec fn assign_val(a: Seq<bool>, v: int) -> bool {
    0 <= v - 1 < a.len() && a[v - 1]
}

/// The Boolean function an edge denotes: the terminal is TRUE, a negative
/// sign complements, an internal vertex branches on its variable. Kept
/// total over every assignment.
pub open spec fn eval_edge(nodes: Seq<Vertex>, e: Edge, a: Seq<bool>) -> bool
    decreases eabs(e as int), (if e < 0 {
        1int
    } else {
        0int
    }),
{
    if eabs(e as int) == 1 {
        e > 0
    } else if e == i64::MIN {
        false
    } else if e < 0 {
        !eval_edge(nodes, (-(e as int)) as i64, a)
    } else if 1 <= e && e as int <= nodes.len() {
        let v = nodes[e - 1];
        if 1 <= eabs(v.lo as int) < e && 1 <= eabs(v.hi as int) < e {
            if assign_val(a, v.var as int) {
                eval_edge(nodes, v.hi, a)
            } else {
                eval_edge(nodes, v.lo, a)
            }
        } else {
            false
        }
    } else {
        false
    }
}

/// Negating an edge complements its function.
pub proof fn lemma_eval_neg(nodes: Seq<Vertex>, e: Edge, a: Seq<bool>)
    requires
        e != i64::MIN,
        eabs(e as int) >= 1,
    ensures
        eval_edge(nodes, (-(e as int)) as i64, a) == !eval_edge(nodes, e, a),
{
}

/// An edge's function is unchanged by growing the arena.
pub proof fn lemma_eval_prefix_edge(n1: Seq<Vertex>, n2: Seq<Vertex>, e: Edge, a: Seq<bool>)
    requires
        n1.is_prefix_of(n2),
        e != i64::MIN,
        1 <= eabs(e as int) <= n1.len(),
    ensures
        eval_edge(n2, e, a) == eval_edge(n1, e, a),
    decreases eabs(e as int), (if e < 0 {
        1int
    } else {
        0int
    }),
{
    if eabs(e as int) == 1 {
    } else if e < 0 {
        lemma_eval_prefix_edge(n1, n2, (-(e as int)) as i64, a);
    } else {
        assert(n1[e - 1] == n2.subrange(0, n1.len() as int)[e - 1]);
        let v = n1[e - 1];
        if 1 <= eabs(v.lo as int) < e && 1 <= eabs(v.hi as int) < e {
            lemma_eval_prefix_edge(n1, n2, v.lo, a);
            lemma_eval_prefix_edge(n1, n2, v.hi, a);
        }
    }
}

/// What `inc_ref` does to the counts: one added to the vertex and,
/// recursively, along every path below it (the terminal keeps none).
/// Fails only on a missing vertex or a count at its ceiling.
pub open spec fn spec_inc(nodes: Seq<Vertex>, rc: Seq<usize>, id: Edge) -> Result<
    Seq<usize>,
    BddError,
>
    decreases eabs(id as int),
{
    if id == i64::MIN || eabs(id as int) < 1 || eabs(id as int) > nodes.len() {
        Err(BddError::MissingVertex)
    } else if eabs(id as int) == 1 {
        Ok(rc)
    } else {
        let i = eabs(id as int) - 1;
        let v = nodes[i];
        if !(1 <= eabs(v.lo as int) <= i && 1 <= eabs(v.hi as int) <= i) || i >= rc.len() {
            Err(BddError::MissingVertex)
        } else if rc[i] == usize::MAX {
            Err(BddError::CapacityExceeded)
        } else {
            let rc1 = rc.update(i, (rc[i] + 1) as usize);
            match spec_inc(nodes, rc1, v.lo) {
                Ok(rc2) => spec_inc(nodes, rc2, v.hi),
                Err(e) => Err(e),
            }
        }
    }
}

/// What `dec_ref` does: one removed along every path, the dead counter
/// stepped at each one-to-zero transition. Fails on a missing vertex, a
/// count already at zero, or a dead counter at its ceiling.
pub open spec fn spec_dec(nodes: Seq<Vertex>, rc: Seq<usize>, dead: int, id: Edge) -> Result<
    (Seq<usize>, int),
    BddError,
>
    decreases eabs(id as int),
{
    if id == i64::MIN || eabs(id as int) < 1 || eabs(id as int) > nodes.len() {
        Err(BddError::MissingVertex)
    } else if eabs(id as int) == 1 {
        Ok((rc, dead))
    } else {
        let i = eabs(id as int) - 1;
        let v = nodes[i];
        if !(1 <= eabs(v.lo as int) <= i && 1 <= eabs(v.hi as int) <= i) || i >= rc.len() {
            Err(BddError::MissingVertex)
        } else if rc[i] == 0 {
            Err(BddError::RefCountUnderflow)
        } else if rc[i] == 1 && dead >= usize::MAX {
            Err(BddError::CapacityExceeded)
        } else {
            let dead1 = if rc[i] == 1 {
                dead + 1
            } else {
                dead
            };
            let rc1 = rc.update(i, (rc[i] - 1) as usize);
            match spec_dec(nodes, rc1, dead1, v.lo) {
                Ok(s2) => spec_dec(nodes, s2.0, s2.1, v.hi),
                Err(e) => Err(e),
            }
        }
    }
}

/// What `make` does once its arguments are admitted: the reduction rule,
/// then a hash-consing hit (with its recursive re-reference) or a fresh
/// vertex whose children are recursively referenced once more.
pub open spec fn spec_make(nodes: Seq<Vertex>, rc: Seq<usize>, var: i64, lo: Edge, hi: Edge) -> Result<
    (Seq<Vertex>, Seq<usize>, Edge),
    BddError,
> {
    if lo == hi {
        Ok((nodes, rc, lo))
    } else {
        let c = spec_normalize(var, lo, hi);
        let f = find_from(nodes, c, 1);
        if f >= 0 {
            match spec_inc(nodes, rc, (f + 1) as i64) {
                Ok(rc1) => Ok(
                    (
                        nodes,
                        rc1,
                        if hi < 0 {
                            (-(f + 1)) as i64
                        } else {
                            (f + 1) as i64
                        },
                    ),
                ),
                Err(_) => Err(BddError::CapacityExceeded),
            }
        } else if nodes.len() >= MAX_VERTICES as int || nodes.len() + 1 > usize::MAX as int {
            Err(BddError::CapacityExceeded)
        } else {
            let nodes1 = nodes.push(c);
            let rc1 = rc.push(1usize);
            let id = nodes.len() as int + 1;
            match spec_inc(nodes1, rc1, c.lo) {
                Ok(rc2) => match spec_inc(nodes1, rc2, c.hi) {
                    Ok(rc3) => Ok(
                        (
                            nodes1,
                            rc3,
                            if hi < 0 {
                                (-id) as i64
                            } else {
                                id as i64
                            },
                        ),
                    ),
                    Err(_) => Err(BddError::CapacityExceeded),
                },
                Err(_) => Err(BddError::CapacityExceeded),
            }
        }
    }
}

/// Recursively adds one reference to the vertex an edge points at and to
/// every vertex below it (the terminal keeps no count). Polarity is
/// irrelevant to liveness.
pub fn inc_ref(bdd: &mut BDD, id: Edge) -> (r: Result<(), BddError>)
    requires
        old(bdd).wf(),
    ensures
        final(bdd).wf(),
        final(bdd).nodes@ == old(bdd).nodes@,
        final(bdd).computed_cache@ == old(bdd).computed_cache@,
        final(bdd).roots@ == old(bdd).roots@,
        final(bdd).ordering@ == old(bdd).ordering@,
        final(bdd).dead_count == old(bdd).dead_count,
        final(bdd).ref_counts@.len() == old(bdd).ref_counts@.len(),
        forall|k: int|
            0 <= k < old(bdd).ref_counts@.len() ==> final(bdd).ref_counts@[k] >= old(bdd).ref_counts@[k],
        final(bdd).acct() >= old(bdd).acct(),
        !old(bdd).valid_edge(id) ==> r == Err::<(), BddError>(BddError::MissingVertex) && *final(bdd) == *old(bdd),
        old(bdd).valid_edge(id) ==> match spec_inc(old(bdd).nodes@, old(bdd).ref_counts@, id) {
            Ok(rc2) => r is Ok && final(bdd).ref_counts@ == rc2,
            Err(e) => r == Err::<(), BddError>(e),
        },
        old(bdd).valid_edge(id) && r is Err ==> r == Err::<(), BddError>(
            BddError::CapacityExceeded,
        ),
    decreases eabs(id as int),
{
    if id == i64::MIN {
        return Err(BddError::MissingVertex);
    }
    let a = edge_abs(id);
    if a < 1 || a > bdd.nodes.len() as i64 {
        return Err(BddError::MissingVertex);
    }
    let idx = (a - 1) as usize;
    if idx == 0 {
        // terminal vertex: immortal, no count kept
        return Ok(());
    }
    let v = bdd.nodes[idx];
    proof {
        assert(wf_vertex_in(bdd.nodes@, idx as int));
    }
    let c = bdd.ref_counts[idx];
    if c == usize::MAX {
        return Err(BddError::CapacityExceeded);
    }
    bdd.ref_counts[idx] = c + 1;
    proof {
        lemma_count_zeros_update(old(bdd).ref_counts@, 1, idx as int, (c + 1) as usize);
    }
    let r1 = inc_ref(bdd, v.lo);
    if r1.is_err() {
        return r1;
    }
    inc_ref(bdd, v.hi)
}

/// Recursively removes one reference from the vertex an edge points at and
/// from every vertex below it. Each count that falls from one to zero adds
/// one to the session's dead counter, so `dead_count` minus the number of
/// dead vertices is kept exactly.
pub fn dec_ref(bdd: &mut BDD, id: Edge) -> (r: Result<(), BddError>)
    requires
        old(bdd).wf(),
    ensures
        final(bdd).wf(),
        final(bdd).nodes@ == old(bdd).nodes@,
        final(bdd).computed_cache@ == old(bdd).computed_cache@,
        final(bdd).roots@ == old(bdd).roots@,
        final(bdd).ordering@ == old(bdd).ordering@,
        final(bdd).dead_count >= old(bdd).dead_count,
        final(bdd).ref_counts@.len() == old(bdd).ref_counts@.len(),
        forall|k: int|
            0 <= k < old(bdd).ref_counts@.len() ==> final(bdd).ref_counts@[k] <= old(bdd).ref_counts@[k],
        final(bdd).acct() == old(bdd).acct(),
        !old(bdd).valid_edge(id) ==> r == Err::<(), BddError>(BddError::MissingVertex) && *final(bdd) == *old(bdd),
        old(bdd).valid_edge(id) ==> match spec_dec(
            old(bdd).nodes@,
            old(bdd).ref_counts@,
            old(bdd).dead_count as int,
            id,
        ) {
            Ok(s2) => r is Ok && final(bdd).ref_counts@ == s2.0 && final(bdd).dead_count as int
                == s2.1,
            Err(e) => r == Err::<(), BddError>(e),
        },
        old(bdd).valid_edge(id) && r is Err ==> r == Err::<(), BddError>(
            BddError::RefCountUnderflow,
        ) || r == Err::<(), BddError>(BddError::CapacityExceeded),
    decreases eabs(id as int),
{
    if id == i64::MIN {
        return Err(BddError::MissingVertex);
    }
    let a = edge_abs(id);
    if a < 1 || a > bdd.nodes.len() as i64 {
        return Err(BddError::MissingVertex);
    }
    let idx = (a - 1) as usize;
    if idx == 0 {
        // terminal vertex: immortal, no count kept
        return Ok(());
    }
    let v = bdd.nodes[idx];
    proof {
        assert(wf_vertex_in(bdd.nodes@, idx as int));
    }
    let c = bdd.ref_counts[idx];
    if c == 0 {
        return Err(BddError::RefCountUnderflow);
    }
    if c == 1 {
        if bdd.dead_count == usize::MAX {
            return Err(BddError::CapacityExceeded);
        }
        bdd.dead_count = bdd.dead_count + 1;
    }
    bdd.ref_counts[idx] = c - 1;
    proof {
        lemma_count_zeros_update(old(bdd).ref_counts@, 1, idx as int, (c - 1) as usize);
    }
    let r1 = dec_ref(bdd, v.lo);
    if r1.is_err() {
        return r1;
    }
    dec_ref(bdd, v.hi)
}

/// Looks up or creates the vertex `(var, lo, hi)`, after the reduction
/// rule (`lo == hi` collapses to that edge) and complement normalization
/// (a negative `hi` is negated together with `lo`, the complement moving
/// into the sign of the returned edge). A hash-consing hit returns the
/// existing id with its counts recursively re-incremented; a miss appends
/// the vertex with one reference and recursively references its children,
/// so counts stay path-weighted. Two calls whose normalized content is
/// equal always return the same magnitude.
pub fn make(bdd: &mut BDD, var: i64, lo: Edge, hi: Edge) -> (r: Result<Edge, BddError>)
    requires
        old(bdd).wf(),
    ensures
        final(bdd).wf(),
        final(bdd).roots@ == old(bdd).roots@,
        final(bdd).ordering@ == old(bdd).ordering@,
        final(bdd).computed_cache@ == old(bdd).computed_cache@,
        old(bdd).nodes@.is_prefix_of(final(bdd).nodes@),
        final(bdd).dead_count == old(bdd).dead_count,
        final(bdd).ref_counts@.len() == final(bdd).nodes@.len(),
        forall|k: int|
            0 <= k < old(bdd).ref_counts@.len() ==> final(bdd).ref_counts@[k] >= old(bdd).ref_counts@[k],
        final(bdd).acct() >= old(bdd).acct(),
        forall|nv: int|
            vars_le(old(bdd).nodes@, nv) && var as int <= nv ==> #[trigger] vars_le(
                final(bdd).nodes@,
                nv,
            ),
        lo == hi ==> r == Ok::<Edge, BddError>(lo) && *final(bdd) == *old(bdd),
        lo != hi && !old(bdd).make_args_ok(var, lo, hi) ==> *final(bdd) == *old(bdd) && r == Err::<
            Edge,
            BddError,
        >(
            if !old(bdd).valid_edge(lo) || !old(bdd).valid_edge(hi) {
                BddError::MissingVertex
            } else {
                BddError::OrderingViolation
            },
        ),
        lo != hi && old(bdd).make_args_ok(var, lo, hi) ==> (match r {
            Ok(e) => {
                let c = spec_normalize(var, lo, hi);
                let f = find_from(old(bdd).nodes@, c, 1);
                &&& spec_make(old(bdd).nodes@, old(bdd).ref_counts@, var, lo, hi) == Ok::<
                    (Seq<Vertex>, Seq<usize>, Edge),
                    BddError,
                >((final(bdd).nodes@, final(bdd).ref_counts@, e))
                &&& final(bdd).valid_edge(e)
                &&& eabs(e as int) >= 2
                &&& final(bdd).vertex_of(e) == c
                &&& ((e < 0) <==> (hi < 0))
                &&& final(bdd).var_of(e) == var
                &&& (f >= 0 ==> final(bdd).nodes@ == old(bdd).nodes@ && eabs(e as int) == f + 1)
                &&& (f < 0 ==> final(bdd).nodes@ == old(bdd).nodes@.push(c) && eabs(e as int) == old(bdd).nodes@.len() + 1)
                &&& forall|a: Seq<bool>|
                    #[trigger] eval_edge(final(bdd).nodes@, e, a) == (if assign_val(a, var as int) {
                        eval_edge(old(bdd).nodes@, hi, a)
                    } else {
                        eval_edge(old(bdd).nodes@, lo, a)
                    })
            },
            Err(er) => er == BddError::CapacityExceeded && spec_make(
                old(bdd).nodes@,
                old(bdd).ref_counts@,
                var,
                lo,
                hi,
            ) == Err::<(Seq<Vertex>, Seq<usize>, Edge), BddError>(BddError::CapacityExceeded),
        }),
{
    if lo == hi {
        return Ok(lo);
    }
    let n = bdd.nodes.len();
    if lo == i64::MIN || hi == i64::MIN {
        return Err(BddError::MissingVertex);
    }
    let alo = edge_abs(lo);
    let ahi = edge_abs(hi);
    if alo < 1 || alo > n as i64 || ahi < 1 || ahi > n as i64 {
        return Err(BddError::MissingVertex);
    }
    if var < 1 {
        return Err(BddError::OrderingViolation);
    }
    if alo > 1 {
        if bdd.nodes[(alo - 1) as usize].var <= var {
            return Err(BddError::OrderingViolation);
        }
    }
    if ahi > 1 {
        if bdd.nodes[(ahi - 1) as usize].var <= var {
            return Err(BddError::OrderingViolation);
        }
    }
    // Prevent creation of vertices with a complemented high edge.
    let complemented = hi < 0;
    let (nlo, nhi) = if complemented {
        (-lo, -hi)
    } else {
        (lo, hi)
    };
    let content = Vertex { var, lo: nlo, hi: nhi };
    let mut i: usize = 1;
    while i < n
        invariant
            bdd.wf(),
            *bdd == *old(bdd),
            n == bdd.nodes@.len(),
            1 <= i <= n,
            lo != hi,
            old(bdd).make_args_ok(var, lo, hi),
            complemented == (hi < 0),
            content == spec_normalize(var, lo, hi),
            content == (Vertex { var, lo: nlo, hi: nhi }),
            nlo as int == (if complemented { -(lo as int) } else { lo as int }),
            nhi as int == (if complemented { -(hi as int) } else { hi as int }),
            forall|j: int| 1 <= j < i ==> bdd.nodes@[j] != content,
        decreases n - i,
    {
        if bdd.nodes[i] == content {
            // hash-consing hit: the content already has an id
            proof {
                lemma_find_from_found(bdd.nodes@, content, 1, i as int);
                assert(wf_vertex_in(bdd.nodes@, i as int));
            }
            let id = (i + 1) as i64;
            match inc_ref(bdd, id) {
                Ok(_) => {},
                Err(_) => {
                    proof {
                        assert(spec_inc(old(bdd).nodes@, old(bdd).ref_counts@, id) is Err);
                        assert(spec_make(old(bdd).nodes@, old(bdd).ref_counts@, var, lo, hi) is Err);
                    }
                    return Err(BddError::CapacityExceeded);
                },
            }
            proof {
                assert(spec_inc(old(bdd).nodes@, old(bdd).ref_counts@, id) == Ok::<
                    Seq<usize>,
                    BddError,
                >(bdd.ref_counts@));
                assert(spec_make(old(bdd).nodes@, old(bdd).ref_counts@, var, lo, hi) == Ok::<
                    (Seq<Vertex>, Seq<usize>, Edge),
                    BddError,
                >(
                    (
                        bdd.nodes@,
                        bdd.ref_counts@,
                        if complemented {
                            (-(id as int)) as i64
                        } else {
                            id
                        },
                    ),
                ));
                let rese: Edge = if complemented {
                    (-(id as int)) as i64
                } else {
                    id
                };
                assert forall|a: Seq<bool>|
                    #[trigger] eval_edge(bdd.nodes@, rese, a) == (if assign_val(a, var as int) {
                        eval_edge(old(bdd).nodes@, hi, a)
                    } else {
                        eval_edge(old(bdd).nodes@, lo, a)
                    }) by {
                    if complemented {
                        lemma_eval_neg(bdd.nodes@, id, a);
                        lemma_eval_neg(bdd.nodes@, nlo, a);
                        lemma_eval_neg(bdd.nodes@, nhi, a);
                    }
                }
            }
            if complemented {
                return Ok(-id);
            } else {
                return Ok(id);
            }
        }
        i = i + 1;
    }
    proof {
        lemma_find_from_none(bdd.nodes@, content, 1);
    }
    if n as u64 >= MAX_VERTICES || n == usize::MAX {
        return Err(BddError::CapacityExceeded);
    }
    let id = (n + 1) as i64;
    bdd.nodes.push(content);
    bdd.ref_counts.push(1);
    proof {
        lemma_count_zeros_push(old(bdd).ref_counts@, 1, 1usize);
        let nn = bdd.nodes@;
        let onodes = old(bdd).nodes@;
        assert(forall|j: int| 0 <= j < n ==> nn[j] == onodes[j]);
        assert forall|ii: int| 1 <= ii < nn.len() implies #[trigger] wf_vertex_in(nn, ii) by {
            if ii < n {
                assert(wf_vertex_in(onodes, ii));
            } else {
                assert(nn[ii] == content);
                assert(eabs(nlo as int) == eabs(lo as int));
                assert(eabs(nhi as int) == eabs(hi as int));
            }
        }
        assert forall|k: int| 0 <= k < bdd.computed_cache@.len() implies #[trigger] wf_cache_entry(
            nn,
            bdd.computed_cache@[k].0,
            bdd.computed_cache@[k].1,
        ) by {
            reveal(cache_entry_sound);
            let x = bdd.computed_cache@[k].0;
            let rr = bdd.computed_cache@[k].1;
            assert(wf_cache_entry(onodes, x, rr));
            assert forall|a: Seq<bool>|
                #[trigger] eval_edge(nn, rr, a) == op_bool(
                    x.op,
                    eval_edge(nn, x.lhs, a),
                    eval_edge(nn, x.rhs, a),
                ) by {
                lemma_eval_prefix_edge(onodes, nn, x.lhs, a);
                lemma_eval_prefix_edge(onodes, nn, x.rhs, a);
                lemma_eval_prefix_edge(onodes, nn, rr, a);
                assert(eval_edge(onodes, rr, a) == op_bool(
                    x.op,
                    eval_edge(onodes, x.lhs, a),
                    eval_edge(onodes, x.rhs, a),
                ));
            }
        }
        assert forall|k: int| 0 <= k < bdd.roots@.len() implies edge_ok(
            nn,
            #[trigger] bdd.roots@[k],
        ) by {
            assert(edge_ok(onodes, bdd.roots@[k]));
        }
    }
    let ghost mid = *bdd;
    proof {
        assert(mid.nodes@ == old(bdd).nodes@.push(content));
        assert(mid.ref_counts@ == old(bdd).ref_counts@.push(1usize));
        assert(mid.valid_edge(nlo) && mid.valid_edge(nhi));
    }
    match inc_ref(bdd, nlo) {
        Ok(_) => {},
        Err(_) => {
            return Err(BddError::CapacityExceeded);
        },
    }
    let ghost mid2 = *bdd;
    match inc_ref(bdd, nhi) {
        Ok(_) => {},
        Err(_) => {
            return Err(BddError::CapacityExceeded);
        },
    }
    proof {
        assert(spec_inc(mid.nodes@, mid.ref_counts@, nlo) == Ok::<Seq<usize>, BddError>(
            mid2.ref_counts@,
        ));
        assert(spec_inc(mid.nodes@, mid2.ref_counts@, nhi) == Ok::<Seq<usize>, BddError>(
            bdd.ref_counts@,
        ));
    }
    proof {
        let rese: Edge = if complemented {
            (-(id as int)) as i64
        } else {
            id
        };
        assert forall|a: Seq<bool>|
            #[trigger] eval_edge(bdd.nodes@, rese, a) == (if assign_val(a, var as int) {
                eval_edge(old(bdd).nodes@, hi, a)
            } else {
                eval_edge(old(bdd).nodes@, lo, a)
            }) by {
            lemma_eval_prefix_edge(old(bdd).nodes@, bdd.nodes@, nlo, a);
            lemma_eval_prefix_edge(old(bdd).nodes@, bdd.nodes@, nhi, a);
            if complemented {
                lemma_eval_neg(bdd.nodes@, id, a);
                lemma_eval_neg(old(bdd).nodes@, nlo, a);
                lemma_eval_neg(old(bdd).nodes@, nhi, a);
            }
        }
    }
    if complemented {
        Ok(-id)
    } else {
        Ok(id)
    }
}

pub proof fn lemma_prefix_trans<T>(a: Seq<T>, b: Seq<T>, c: Seq<T>)
    requires
        a.is_prefix_of(b),
        b.is_prefix_of(c),
    ensures
        a.is_prefix_of(c),
{
    assert forall|i: int| 0 <= i < a.len() implies a[i] == c[i] by {
        assert(a[i] == b.subrange(0, a.len() as int)[i]);
        assert(b[i] == c.subrange(0, b.len() as int)[i]);
    }
    assert(a =~= c.subrange(0, a.len() as int));
}

proof fn lemma_prefix_node_facts(n1: Seq<Vertex>, n2: Seq<Vertex>, e: Edge)
    requires
        n1.is_prefix_of(n2),
        edge_ok(n1, e),
    ensures
        edge_ok(n2, e),
        node_var(n2, e) == node_var(n1, e),
        node_of(n2, e) == node_of(n1, e),
{
    assert(n1[eabs(e as int) - 1] == n2.subrange(0, n1.len() as int)[eabs(e as int) - 1]);
}

proof fn lemma_find_from_prefix(n1: Seq<Vertex>, n2: Seq<Vertex>, c: Vertex, i: int)
    requires
        n1.is_prefix_of(n2),
        0 <= i,
        find_from(n1, c, i) >= 0,
    ensures
        find_from(n2, c, i) == find_from(n1, c, i),
    decreases n1.len() - i,
{
    assert(n1[i] == n2.subrange(0, n1.len() as int)[i]);
    if n1[i] != c {
        lemma_find_from_prefix(n1, n2, c, i + 1);
    }
}

/// The hash-consing guarantee behind canonicity: a content that has an id
/// keeps that id in every later state of the store, so two `make` calls
/// with structurally-equal normalized content return the same magnitude.
pub proof fn law_make_canonical(n1: Seq<Vertex>, n2: Seq<Vertex>, c: Vertex)
    requires
        n1.is_prefix_of(n2),
        find_from(n1, c, 1) >= 0,
    ensures
        find_from(n2, c, 1) == find_from(n1, c, 1),
{
    lemma_find_from_prefix(n1, n2, c, 1);
}

/// Complement normalization: a well-formed store never contains a vertex
/// whose `hi` child is a negative edge.
pub proof fn law_complement_normalization(bdd: BDD)
    requires
        bdd.wf(),
    ensures
        forall|i: int| 1 <= i < bdd.nodes@.len() ==> (#[trigger] bdd.nodes@[i]).hi > 0,
{
    assert forall|i: int| 1 <= i < bdd.nodes@.len() implies (#[trigger] bdd.nodes@[i]).hi > 0 by {
        assert(wf_vertex_in(bdd.nodes@, i));
    }
}

/// Result when exactly one operand is a terminal edge: TRUE is the AND
/// identity and absorbs OR, FALSE absorbs AND and is the OR identity,
/// XOR with TRUE complements and with FALSE keeps the other operand.
pub open spec fn one_terminal_result(op: Operator, lhs: Edge, rhs: Edge) -> Edge {
    let t = if edge_terminal(lhs) {
        lhs
    } else {
        rhs
    };
    let other = if edge_terminal(lhs) {
        rhs
    } else {
        lhs
    };
    match op {
        Operator::AND => if t == 1 {
            other
        } else {
            -1i64
        },
        Operator::OR => if t == 1 {
            1i64
        } else {
            other
        },
        Operator::XOR => if t == 1 {
            (-(other as int)) as i64
        } else {
            other
        },
        Operator::NOT => 0i64,
    }
}

/// Result when both operands are the identical edge: AND and OR keep it,
/// XOR cancels to FALSE.
pub open spec fn diagonal_result(op: Operator, x: Edge) -> Edge {
    match op {
        Operator::AND => x,
        Operator::OR => x,
        Operator::XOR => -1i64,
        Operator::NOT => 0i64,
    }
}

/// Result when the operands are complements of one another (equal
/// magnitude, opposite sign).
pub open spec fn complement_result(op: Operator) -> Edge {
    match op {
        Operator::AND => -1i64,
        Operator::OR | Operator::XOR => 1i64,
        Operator::NOT => 0i64,
    }
}

/// First cache index `>= i` whose key equals `x`, or `-1`.
pub open spec fn cache_find_from(cache: Seq<(Expr, Edge)>, x: Expr, i: int) -> int
    decreases cache.len() - i,
{
    if i < 0 || i >= cache.len() {
        -1
    } else if cache[i].0 == x {
        i
    } else {
        cache_find_from(cache, x, i + 1)
    }
}

proof fn lemma_cache_find_none(cache: Seq<(Expr, Edge)>, x: Expr, i: int)
    requires
        0 <= i,
        forall|j: int| i <= j < cache.len() ==> (#[trigger] cache[j]).0 != x,
    ensures
        cache_find_from(cache, x, i) == -1,
    decreases cache.len() - i,
{
    if i < cache.len() {
        lemma_cache_find_none(cache, x, i + 1);
    }
}

proof fn lemma_cache_find_found(cache: Seq<(Expr, Edge)>, x: Expr, i: int, k: int)
    requires
        0 <= i <= k < cache.len(),
        cache[k].0 == x,
        forall|j: int| i <= j < k ==> (#[trigger] cache[j]).0 != x,
    ensures
        cache_find_from(cache, x, i) == k,
    decreases k - i,
{
    if i < k {
        lemma_cache_find_found(cache, x, i + 1, k);
    }
}

/// What the apply engine does, one case at a time: a memo hit
/// re-references its result; terminal, identical and complementary
/// operands resolve algebraically and touch nothing; otherwise both
/// operands are split at the smaller variable (the split one consumed),
/// the signed cofactors are combined recursively, the result is built by
/// `make` and the key is memoized to it.
pub open spec fn spec_apply(
    nodes: Seq<Vertex>,
    rc: Seq<usize>,
    cache: Seq<(Expr, Edge)>,
    dead: int,
    op: Operator,
    lhs: Edge,
    rhs: Edge,
) -> Result<(Seq<Vertex>, Seq<usize>, Seq<(Expr, Edge)>, int, Edge), BddError>
    decreases eabs(lhs as int) + eabs(rhs as int),
{
    if lhs == i64::MIN || rhs == i64::MIN || eabs(lhs as int) < 1 || eabs(lhs as int) > nodes.len()
        || eabs(rhs as int) < 1 || eabs(rhs as int) > nodes.len() {
        Err(BddError::MissingVertex)
    } else {
        let key = Expr { op, lhs, rhs };
        let kf = cache_find_from(cache, key, 0);
        if kf >= 0 {
            match spec_inc(nodes, rc, cache[kf].1) {
                Ok(rc1) => Ok((nodes, rc1, cache, dead, cache[kf].1)),
                Err(_) => Err(BddError::CapacityExceeded),
            }
        } else if eabs(lhs as int) == 1 && eabs(rhs as int) == 1 {
            if op is NOT {
                Err(BddError::NotInBinaryApply)
            } else {
                Ok((nodes, rc, cache, dead, const_edge(op_bool(op, lhs == 1, rhs == 1))))
            }
        } else if eabs(lhs as int) == 1 || eabs(rhs as int) == 1 {
            if op is NOT {
                Err(BddError::NotInBinaryApply)
            } else {
                Ok((nodes, rc, cache, dead, one_terminal_result(op, lhs, rhs)))
            }
        } else if lhs == rhs {
            if op is NOT {
                Err(BddError::NotInBinaryApply)
            } else {
                Ok((nodes, rc, cache, dead, diagonal_result(op, lhs)))
            }
        } else if eabs(lhs as int) == eabs(rhs as int) {
            if op is NOT {
                Err(BddError::NotInBinaryApply)
            } else {
                Ok((nodes, rc, cache, dead, complement_result(op)))
            }
        } else {
            spec_apply_general(nodes, rc, cache, dead, op, lhs, rhs)
        }
    }
}

/// The signed cofactors of an operand at the splitting variable: a
/// vertex at that variable splits into its children (negated through a
/// complemented edge), any other operand is reused whole on both sides.
pub open spec fn spec_cofactors(nodes: Seq<Vertex>, e: Edge, mv: i64) -> (Edge, Edge) {
    let v = node_of(nodes, e);
    if v.var == mv {
        if (e as int) < 0 {
            ((-(v.lo as int)) as i64, (-(v.hi as int)) as i64)
        } else {
            (v.lo, v.hi)
        }
    } else {
        (e, e)
    }
}

/// The consumption step of a Shannon expansion: each operand whose
/// vertex sits at the smaller variable is dereferenced once, left one
/// first.
pub open spec fn spec_split_chain(
    nodes: Seq<Vertex>,
    rc: Seq<usize>,
    dead: int,
    lhs: Edge,
    rhs: Edge,
) -> Result<(Seq<usize>, int), BddError> {
    let lv = node_of(nodes, lhs);
    let rv = node_of(nodes, rhs);
    let mv = if lv.var < rv.var {
        lv.var
    } else {
        rv.var
    };
    let s1 = if lv.var == mv {
        spec_dec(nodes, rc, dead, lhs)
    } else {
        Ok((rc, dead))
    };
    match s1 {
        Err(e) => Err(e),
        Ok(sd1) => if rv.var == mv {
            spec_dec(nodes, sd1.0, sd1.1, rhs)
        } else {
            Ok(sd1)
        },
    }
}

/// The Shannon-expansion branch of `spec_apply`, for operands that are
/// distinct non-terminal vertices with no memo entry.
pub open spec fn spec_apply_general(
    nodes: Seq<Vertex>,
    rc: Seq<usize>,
    cache: Seq<(Expr, Edge)>,
    dead: int,
    op: Operator,
    lhs: Edge,
    rhs: Edge,
) -> Result<(Seq<Vertex>, Seq<usize>, Seq<(Expr, Edge)>, int, Edge), BddError>
    decreases eabs(lhs as int) + eabs(rhs as int), 0int,
{
    if !(1 <= eabs(lhs as int) <= nodes.len() && 1 <= eabs(rhs as int) <= nodes.len()
        && lhs != i64::MIN && rhs != i64::MIN) {
        Err(BddError::MissingVertex)
    } else {
        let key = Expr { op, lhs, rhs };
            let lv = nodes[eabs(lhs as int) - 1];
            let rv = nodes[eabs(rhs as int) - 1];
            if !(1 <= eabs(lv.lo as int) < eabs(lhs as int) && 1 <= eabs(lv.hi as int) < eabs(
                lhs as int,
            ) && 1 <= eabs(rv.lo as int) < eabs(rhs as int) && 1 <= eabs(rv.hi as int) < eabs(
                rhs as int,
            )) {
                Err(BddError::MissingVertex)
            } else {
                let min_var = if lv.var < rv.var {
                    lv.var
                } else {
                    rv.var
                };
                let lcf = spec_cofactors(nodes, lhs, min_var);
                let rcf = spec_cofactors(nodes, rhs, min_var);
                match spec_split_chain(nodes, rc, dead, lhs, rhs) {
                    Err(e) => Err(e),
                    Ok(sd2) => match spec_apply(nodes, sd2.0, cache, sd2.1, op, lcf.1, rcf.1) {
                        Err(e) => Err(e),
                        Ok(h) => match spec_apply(h.0, h.1, h.2, h.3, op, lcf.0, rcf.0) {
                            Err(e) => Err(e),
                            Ok(l) => match spec_make(l.0, l.1, min_var, l.4, h.4) {
                                Err(e) => Err(e),
                                Ok(m) => Ok((m.0, m.1, l.2.push((key, m.2)), l.3, m.2)),
                            },
                        },
                    },
                }
            }
        }
}

/// One unfolding of the Shannon branch, for reassembling it from the
/// results of its steps.
proof fn lemma_general_unfold(
    nodes: Seq<Vertex>,
    rc: Seq<usize>,
    cache: Seq<(Expr, Edge)>,
    dead: int,
    op: Operator,
    lhs: Edge,
    rhs: Edge,
)
    requires
        lhs != i64::MIN,
        rhs != i64::MIN,
        1 <= eabs(lhs as int) <= nodes.len(),
        1 <= eabs(rhs as int) <= nodes.len(),
        1 <= eabs(node_of(nodes, lhs).lo as int) < eabs(lhs as int),
        1 <= eabs(node_of(nodes, lhs).hi as int) < eabs(lhs as int),
        1 <= eabs(node_of(nodes, rhs).lo as int) < eabs(rhs as int),
        1 <= eabs(node_of(nodes, rhs).hi as int) < eabs(rhs as int),
    ensures
        ({
            let lv = node_of(nodes, lhs);
            let rv = node_of(nodes, rhs);
            let mv = if lv.var < rv.var {
                lv.var
            } else {
                rv.var
            };
            let lcf = spec_cofactors(nodes, lhs, mv);
            let rcf = spec_cofactors(nodes, rhs, mv);
            spec_apply_general(nodes, rc, cache, dead, op, lhs, rhs) == (match spec_split_chain(
                nodes,
                rc,
                dead,
                lhs,
                rhs,
            ) {
                Err(e) => Err(e),
                Ok(sd2) => match spec_apply(nodes, sd2.0, cache, sd2.1, op, lcf.1, rcf.1) {
                    Err(e) => Err(e),
                    Ok(h) => match spec_apply(h.0, h.1, h.2, h.3, op, lcf.0, rcf.0) {
                        Err(e) => Err(e),
                        Ok(l) => match spec_make(l.0, l.1, mv, l.4, h.4) {
                            Err(e) => Err(e),
                            Ok(m) => Ok(
                                (m.0, m.1, l.2.push((Expr { op, lhs, rhs }, m.2)), l.3, m.2),
                            ),
                        },
                    },
                },
            })
        }),
{
}

/// The recursive apply engine over signed edges. Case order: computed-
/// cache hit (the memoized result is re-referenced and the store is
/// otherwise untouched); both operands terminal (truth table); exactly
/// one terminal (identity and absorption laws); identical operands;
/// complementary operands; otherwise Shannon expansion at the smaller
/// variable: the split operand is consumed, its signed cofactors are
/// combined recursively, the result is built by `make` and memoized
/// under the operands' key. The result always denotes the operator
/// applied to the operands' Boolean functions.
#[verifier::rlimit(100)]
#[verifier::spinoff_prover]
pub fn apply_helper(bdd: &mut BDD, op: &Operator, lhs: Edge, rhs: Edge) -> (r: Result<
    Edge,
    BddError,
>)
    requires
        old(bdd).wf(),
    ensures
        final(bdd).wf(),
        final(bdd).roots@ == old(bdd).roots@,
        final(bdd).ordering@ == old(bdd).ordering@,
        old(bdd).nodes@.is_prefix_of(final(bdd).nodes@),
        old(bdd).computed_cache@.is_prefix_of(final(bdd).computed_cache@),
        final(bdd).ref_counts@.len() == final(bdd).nodes@.len(),
        final(bdd).dead_count >= old(bdd).dead_count,
        final(bdd).acct() >= old(bdd).acct(),
        forall|nv: int|
            vars_le(old(bdd).nodes@, nv) ==> #[trigger] vars_le(final(bdd).nodes@, nv),
        !old(bdd).valid_edge(lhs) || !old(bdd).valid_edge(rhs) ==> r == Err::<Edge, BddError>(
            BddError::MissingVertex,
        ) && *final(bdd) == *old(bdd),
        old(bdd).valid_edge(lhs) && old(bdd).valid_edge(rhs) ==> match spec_apply(
            old(bdd).nodes@,
            old(bdd).ref_counts@,
            old(bdd).computed_cache@,
            old(bdd).dead_count as int,
            *op,
            lhs,
            rhs,
        ) {
            Ok(st) => r == Ok::<Edge, BddError>(st.4) && final(bdd).nodes@ == st.0 && final(bdd).ref_counts@ == st.1 && final(bdd).computed_cache@ == st.2 && final(bdd).dead_count as int == st.3,
            Err(e) => r == Err::<Edge, BddError>(e),
        },
        *op is NOT ==> r is Err,
        old(bdd).valid_edge(lhs) && old(bdd).valid_edge(rhs) && !(*op is NOT) ==> (r matches Err(e)
            ==> is_resource_err(e)),
        r matches Ok(e) ==> {
            &&& final(bdd).valid_edge(e)
            &&& (edge_terminal(e) || node_var(final(bdd).nodes@, e) >= min_op_var(
                old(bdd).nodes@,
                lhs,
                rhs,
            ))
            &&& (edge_terminal(lhs) && edge_terminal(rhs) ==> e == const_edge(
                op_bool(*op, lhs == 1, rhs == 1),
            ) && final(bdd).nodes@ == old(bdd).nodes@)
            &&& (edge_terminal(lhs) != edge_terminal(rhs) ==> e == one_terminal_result(
                *op,
                lhs,
                rhs,
            ) && final(bdd).nodes@ == old(bdd).nodes@)
            &&& (!edge_terminal(lhs) && !edge_terminal(rhs) && lhs == rhs ==> e
                == diagonal_result(*op, lhs) && final(bdd).nodes@ == old(bdd).nodes@)
            &&& (!edge_terminal(lhs) && !edge_terminal(rhs) && lhs != rhs && eabs(lhs as int)
                == eabs(rhs as int) ==> e == complement_result(*op) && final(bdd).nodes@ == old(bdd).nodes@)
            &&& forall|a: Seq<bool>|
                #[trigger] eval_edge(final(bdd).nodes@, e, a) == op_bool(
                    *op,
                    eval_edge(old(bdd).nodes@, lhs, a),
                    eval_edge(old(bdd).nodes@, rhs, a),
                )
        },
    decreases eabs(lhs as int) + eabs(rhs as int),
{
    if lhs == i64::MIN || rhs == i64::MIN {
        return Err(BddError::MissingVertex);
    }
    let alhs = edge_abs(lhs);
    let arhs = edge_abs(rhs);
    let n0 = bdd.nodes.len();
    if alhs < 1 || alhs > n0 as i64 || arhs < 1 || arhs > n0 as i64 {
        return Err(BddError::MissingVertex);
    }
    // computed-cache lookup
    let key = Expr { op: *op, lhs, rhs };
    let clen = bdd.computed_cache.len();
    let mut k: usize = 0;
    while k < clen
        invariant
            bdd.wf(),
            *bdd == *old(bdd),
            clen == bdd.computed_cache@.len(),
            0 <= k <= clen,
            key == (Expr { op: *op, lhs, rhs }),
            old(bdd).valid_edge(lhs),
            old(bdd).valid_edge(rhs),
            forall|j: int| 0 <= j < k ==> (#[trigger] bdd.computed_cache@[j]).0 != key,
        decreases clen - k,
    {
        if bdd.computed_cache[k].0 == key {
            // cache hit: re-reference the memoized result and return it
            proof {
                lemma_cache_find_found(bdd.computed_cache@, key, 0, k as int);
                assert(wf_cache_entry(
                    bdd.nodes@,
                    bdd.computed_cache@[k as int].0,
                    bdd.computed_cache@[k as int].1,
                ));
            }
            let res = bdd.computed_cache[k].1;
            match inc_ref(bdd, res) {
                Ok(_) => {},
                Err(_) => {
                    return Err(BddError::CapacityExceeded);
                },
            }
            proof {
                reveal(cache_entry_sound);
                assert forall|a: Seq<bool>|
                    #[trigger] eval_edge(bdd.nodes@, res, a) == op_bool(
                        *op,
                        eval_edge(old(bdd).nodes@, lhs, a),
                        eval_edge(old(bdd).nodes@, rhs, a),
                    ) by {
                    assert(eval_edge(old(bdd).nodes@, res, a) == op_bool(
                        *op,
                        eval_edge(old(bdd).nodes@, lhs, a),
                        eval_edge(old(bdd).nodes@, rhs, a),
                    ));
                }
            }
            return Ok(res);
        }
        k = k + 1;
    }
    proof {
        lemma_cache_find_none(bdd.computed_cache@, key, 0);
    }
    if alhs == 1 && arhs == 1 {
        // both operands terminal: resolve by truth table
        let lhs_val = get_id_bool(lhs);
        let rhs_val = get_id_bool(rhs);
        match op {
            Operator::AND => Ok(get_const_id(lhs_val && rhs_val)),
            Operator::OR => Ok(get_const_id(lhs_val || rhs_val)),
            Operator::XOR => Ok(get_const_id(lhs_val != rhs_val)),
            Operator::NOT => Err(BddError::NotInBinaryApply),
        }
    } else if alhs == 1 || arhs == 1 {
        // exactly one operand terminal: identity and absorption laws
        let t = if alhs == 1 {
            lhs
        } else {
            rhs
        };
        let other = if alhs == 1 {
            rhs
        } else {
            lhs
        };
        proof {
            if !(*op is NOT) {
                assert forall|a: Seq<bool>|
                    #[trigger] eval_edge(bdd.nodes@, one_terminal_result(*op, lhs, rhs), a)
                        == op_bool(
                        *op,
                        eval_edge(bdd.nodes@, lhs, a),
                        eval_edge(bdd.nodes@, rhs, a),
                    ) by {
                    lemma_eval_neg(bdd.nodes@, other, a);
                }
            }
        }
        match op {
            Operator::AND => if t == 1 {
                Ok(other)
            } else {
                Ok(-1)
            },
            Operator::OR => if t == 1 {
                Ok(1)
            } else {
                Ok(other)
            },
            Operator::XOR => if t == 1 {
                Ok(-other)
            } else {
                Ok(other)
            },
            Operator::NOT => Err(BddError::NotInBinaryApply),
        }
    } else if lhs == rhs {
        // identical operands
        match op {
            Operator::AND => Ok(lhs),
            Operator::OR => Ok(lhs),
            Operator::XOR => Ok(-1),
            Operator::NOT => Err(BddError::NotInBinaryApply),
        }
    } else if alhs == arhs {
        // operands are complements of each other
        proof {
            lemma_eval_neg_all(bdd.nodes@, lhs);
            lemma_eval_neg_all(bdd.nodes@, rhs);
            assert(rhs as int == -(lhs as int) || lhs as int == -(rhs as int));
        }
        match op {
            Operator::AND => Ok(-1),
            Operator::OR | Operator::XOR => Ok(1),
            Operator::NOT => Err(BddError::NotInBinaryApply),
        }
    } else {
        // general case: Shannon expansion, split off into its own function
        apply_shannon(bdd, op, lhs, rhs)
    }
}

/// A non-terminal edge equals the branch on its vertex's variable over
/// its signed cofactors.
proof fn lemma_cofactor_identity(nodes: Seq<Vertex>, e: Edge, e_lo: Edge, e_hi: Edge, mv: i64)
    requires
        nodes.len() <= MAX_VERTICES as int,
        1 <= eabs(e as int) - 1,
        eabs(e as int) <= nodes.len(),
        wf_vertex_in(nodes, eabs(e as int) - 1),
        nodes[eabs(e as int) - 1].var == mv,
        (e as int) > 0 ==> e_lo == node_of(nodes, e).lo && e_hi == node_of(nodes, e).hi,
        (e as int) < 0 ==> e_lo as int == -(node_of(nodes, e).lo as int) && e_hi as int == -(
        node_of(nodes, e).hi as int),
    ensures
        forall|a: Seq<bool>|
            #[trigger] eval_edge(nodes, e, a) == (if assign_val(a, mv as int) {
                eval_edge(nodes, e_hi, a)
            } else {
                eval_edge(nodes, e_lo, a)
            }),
{
    let v = nodes[eabs(e as int) - 1];
    assert forall|a: Seq<bool>|
        #[trigger] eval_edge(nodes, e, a) == (if assign_val(a, mv as int) {
            eval_edge(nodes, e_hi, a)
        } else {
            eval_edge(nodes, e_lo, a)
        }) by {
        if e < 0 {
            lemma_eval_neg(nodes, (-(e as int)) as i64, a);
            lemma_eval_neg(nodes, v.lo, a);
            lemma_eval_neg(nodes, v.hi, a);
        }
    }
}

/// Chains the Shannon expansion: if both operands branch at the same
/// variable into their cofactors, the recursive combinations of the
/// cofactors and the vertex built over them combine the operands.
proof fn lemma_shannon_sound(
    onodes: Seq<Vertex>,
    n1: Seq<Vertex>,
    n2: Seq<Vertex>,
    n3: Seq<Vertex>,
    op: Operator,
    lhs: Edge,
    rhs: Edge,
    lhs_lo: Edge,
    lhs_hi: Edge,
    rhs_lo: Edge,
    rhs_hi: Edge,
    mv: i64,
    hi_cof: Edge,
    lo_cof: Edge,
    res: Edge,
)
    requires
        onodes.is_prefix_of(n1),
        n1.is_prefix_of(n2),
        n2.is_prefix_of(n3),
        lhs_lo != i64::MIN && 1 <= eabs(lhs_lo as int) <= onodes.len(),
        lhs_hi != i64::MIN && 1 <= eabs(lhs_hi as int) <= onodes.len(),
        rhs_lo != i64::MIN && 1 <= eabs(rhs_lo as int) <= onodes.len(),
        rhs_hi != i64::MIN && 1 <= eabs(rhs_hi as int) <= onodes.len(),
        hi_cof != i64::MIN && 1 <= eabs(hi_cof as int) <= n1.len(),
        lo_cof != i64::MIN && 1 <= eabs(lo_cof as int) <= n2.len(),
        forall|a: Seq<bool>|
            #[trigger] eval_edge(onodes, lhs, a) == (if assign_val(a, mv as int) {
                eval_edge(onodes, lhs_hi, a)
            } else {
                eval_edge(onodes, lhs_lo, a)
            }),
        forall|a: Seq<bool>|
            #[trigger] eval_edge(onodes, rhs, a) == (if assign_val(a, mv as int) {
                eval_edge(onodes, rhs_hi, a)
            } else {
                eval_edge(onodes, rhs_lo, a)
            }),
        forall|a: Seq<bool>|
            #[trigger] eval_edge(n1, hi_cof, a) == op_bool(
                op,
                eval_edge(onodes, lhs_hi, a),
                eval_edge(onodes, rhs_hi, a),
            ),
        forall|a: Seq<bool>|
            #[trigger] eval_edge(n2, lo_cof, a) == op_bool(
                op,
                eval_edge(n1, lhs_lo, a),
                eval_edge(n1, rhs_lo, a),
            ),
        forall|a: Seq<bool>|
            #[trigger] eval_edge(n3, res, a) == (if assign_val(a, mv as int) {
                eval_edge(n2, hi_cof, a)
            } else {
                eval_edge(n2, lo_cof, a)
            }),
    ensures
        forall|a: Seq<bool>|
            #[trigger] eval_edge(n3, res, a) == op_bool(
                op,
                eval_edge(onodes, lhs, a),
                eval_edge(onodes, rhs, a),
            ),
{
    assert forall|a: Seq<bool>|
        #[trigger] eval_edge(n3, res, a) == op_bool(
            op,
            eval_edge(onodes, lhs, a),
            eval_edge(onodes, rhs, a),
        ) by {
        lemma_eval_prefix_edge(onodes, n1, lhs_lo, a);
        lemma_eval_prefix_edge(onodes, n1, rhs_lo, a);
        lemma_eval_prefix_edge(n1, n2, hi_cof, a);
        assert(eval_edge(onodes, lhs, a) == (if assign_val(a, mv as int) {
            eval_edge(onodes, lhs_hi, a)
        } else {
            eval_edge(onodes, lhs_lo, a)
        }));
        assert(eval_edge(onodes, rhs, a) == (if assign_val(a, mv as int) {
            eval_edge(onodes, rhs_hi, a)
        } else {
            eval_edge(onodes, rhs_lo, a)
        }));
        assert(eval_edge(n1, hi_cof, a) == op_bool(
            op,
            eval_edge(onodes, lhs_hi, a),
            eval_edge(onodes, rhs_hi, a),
        ));
        assert(eval_edge(n2, lo_cof, a) == op_bool(
            op,
            eval_edge(n1, lhs_lo, a),
            eval_edge(n1, rhs_lo, a),
        ));
    }
}

/// Consumes the operands that split at the smaller variable of a Shannon
/// expansion and hands back that variable with the signed cofactors of
/// both operands.
#[verifier::rlimit(100)]
fn apply_split(bdd: &mut BDD, lhs: Edge, rhs: Edge) -> (r: Result<
    (i64, Edge, Edge, Edge, Edge),
    BddError,
>)
    requires
        old(bdd).wf(),
        old(bdd).valid_edge(lhs),
        old(bdd).valid_edge(rhs),
        !edge_terminal(lhs),
        !edge_terminal(rhs),
        lhs != rhs,
        eabs(lhs as int) != eabs(rhs as int),
    ensures
        final(bdd).wf(),
        final(bdd).nodes@ == old(bdd).nodes@,
        final(bdd).computed_cache@ == old(bdd).computed_cache@,
        final(bdd).roots@ == old(bdd).roots@,
        final(bdd).ordering@ == old(bdd).ordering@,
        final(bdd).ref_counts@.len() == old(bdd).ref_counts@.len(),
        final(bdd).dead_count >= old(bdd).dead_count,
        final(bdd).acct() == old(bdd).acct(),
        r matches Err(e) ==> is_resource_err(e) && spec_split_chain(
            old(bdd).nodes@,
            old(bdd).ref_counts@,
            old(bdd).dead_count as int,
            lhs,
            rhs,
        ) == Err::<(Seq<usize>, int), BddError>(e),
        r matches Ok(cf) ==> {
            let mv = cf.0;
            &&& spec_split_chain(
                old(bdd).nodes@,
                old(bdd).ref_counts@,
                old(bdd).dead_count as int,
                lhs,
                rhs,
            ) == Ok::<(Seq<usize>, int), BddError>(
                (final(bdd).ref_counts@, final(bdd).dead_count as int),
            )
            &&& (cf.1, cf.2) == spec_cofactors(old(bdd).nodes@, lhs, mv)
            &&& (cf.3, cf.4) == spec_cofactors(old(bdd).nodes@, rhs, mv)
            &&& mv as int == min_op_var(old(bdd).nodes@, lhs, rhs)
            &&& 1 <= mv
            &&& cf.1 != i64::MIN && 1 <= eabs(cf.1 as int) <= old(bdd).nodes@.len()
            &&& cf.2 != i64::MIN && 1 <= eabs(cf.2 as int) <= old(bdd).nodes@.len()
            &&& cf.3 != i64::MIN && 1 <= eabs(cf.3 as int) <= old(bdd).nodes@.len()
            &&& cf.4 != i64::MIN && 1 <= eabs(cf.4 as int) <= old(bdd).nodes@.len()
            &&& (!edge_terminal(cf.1) ==> node_var(old(bdd).nodes@, cf.1) > mv)
            &&& (!edge_terminal(cf.2) ==> node_var(old(bdd).nodes@, cf.2) > mv)
            &&& (!edge_terminal(cf.3) ==> node_var(old(bdd).nodes@, cf.3) > mv)
            &&& (!edge_terminal(cf.4) ==> node_var(old(bdd).nodes@, cf.4) > mv)
            &&& eabs(cf.2 as int) + eabs(cf.4 as int) < eabs(lhs as int) + eabs(rhs as int)
            &&& eabs(cf.1 as int) + eabs(cf.3 as int) < eabs(lhs as int) + eabs(rhs as int)
            &&& forall|a: Seq<bool>|
                #[trigger] eval_edge(old(bdd).nodes@, lhs, a) == (if assign_val(a, mv as int) {
                    eval_edge(old(bdd).nodes@, cf.2, a)
                } else {
                    eval_edge(old(bdd).nodes@, cf.1, a)
                })
            &&& forall|a: Seq<bool>|
                #[trigger] eval_edge(old(bdd).nodes@, rhs, a) == (if assign_val(a, mv as int) {
                    eval_edge(old(bdd).nodes@, cf.4, a)
                } else {
                    eval_edge(old(bdd).nodes@, cf.3, a)
                })
        },
{
    let nlen = bdd.nodes.len();
    proof {
        assert(1 <= eabs(lhs as int) <= nlen as int);
        assert(1 <= eabs(rhs as int) <= nlen as int);
    }
    let alhs = edge_abs(lhs);
    let arhs = edge_abs(rhs);
        // general case: Shannon expansion at the smaller variable
        let lhs_vertex = bdd.nodes[(alhs - 1) as usize];
        let rhs_vertex = bdd.nodes[(arhs - 1) as usize];
        proof {
            assert(lhs_vertex == bdd.nodes@[alhs as int - 1]);
            assert(rhs_vertex == bdd.nodes@[arhs as int - 1]);
            assert(wf_vertex_in(bdd.nodes@, alhs - 1));
            assert(wf_vertex_in(bdd.nodes@, arhs - 1));
        }
        let lhs_var = lhs_vertex.var;
        let rhs_var = rhs_vertex.var;
        let min_var = if lhs_var < rhs_var {
            lhs_var
        } else {
            rhs_var
        };
        let mut lhs_lo = lhs;
        let mut lhs_hi = lhs;
        let mut rhs_lo = rhs;
        let mut rhs_hi = rhs;
        if lhs_var == min_var {
            // the split operand is consumed, replaced by its cofactors
            proof {
                assert(eabs(lhs_vertex.lo as int) < eabs(lhs as int));
                assert(lhs_vertex.lo != i64::MIN && lhs_vertex.hi != i64::MIN);
            }
            if lhs < 0 {
                lhs_lo = -lhs_vertex.lo;
                lhs_hi = -lhs_vertex.hi;
            } else {
                lhs_lo = lhs_vertex.lo;
                lhs_hi = lhs_vertex.hi;
            }
            match dec_ref(bdd, lhs) {
                Ok(_) => {},
                Err(e) => {
                    return Err(e);
                },
            }
        }
        if rhs_var == min_var {
            proof {
                assert(eabs(rhs_vertex.lo as int) < eabs(rhs as int));
                assert(rhs_vertex.lo != i64::MIN && rhs_vertex.hi != i64::MIN);
            }
            if rhs < 0 {
                rhs_lo = -rhs_vertex.lo;
                rhs_hi = -rhs_vertex.hi;
            } else {
                rhs_lo = rhs_vertex.lo;
                rhs_hi = rhs_vertex.hi;
            }
            match dec_ref(bdd, rhs) {
                Ok(_) => {},
                Err(e) => {
                    return Err(e);
                },
            }
        }
        proof {
            if lhs_var == min_var {
                lemma_cofactor_identity(old(bdd).nodes@, lhs, lhs_lo, lhs_hi, min_var);
            }
            if rhs_var == min_var {
                lemma_cofactor_identity(old(bdd).nodes@, rhs, rhs_lo, rhs_hi, min_var);
            }
        }
        Ok((min_var, lhs_lo, lhs_hi, rhs_lo, rhs_hi))
}

/// The Shannon-expansion case of the apply engine: neither operand is a
/// terminal, they are neither identical nor complementary, and the
/// computed cache has no entry for them. The operand at the smaller
/// variable is consumed, its signed cofactors are combined recursively,
/// the result is built by `make` and memoized under the operands' key.
#[verifier::rlimit(100)]
#[verifier::spinoff_prover]
fn apply_shannon(bdd: &mut BDD, op: &Operator, lhs: Edge, rhs: Edge) -> (r: Result<
    Edge,
    BddError,
>)
    requires
        old(bdd).wf(),
        old(bdd).valid_edge(lhs),
        old(bdd).valid_edge(rhs),
        !edge_terminal(lhs),
        !edge_terminal(rhs),
        lhs != rhs,
        eabs(lhs as int) != eabs(rhs as int),
        cache_find_from(old(bdd).computed_cache@, Expr { op: *op, lhs, rhs }, 0) == -1,
    ensures
        final(bdd).wf(),
        final(bdd).roots@ == old(bdd).roots@,
        final(bdd).ordering@ == old(bdd).ordering@,
        old(bdd).nodes@.is_prefix_of(final(bdd).nodes@),
        old(bdd).computed_cache@.is_prefix_of(final(bdd).computed_cache@),
        final(bdd).ref_counts@.len() == final(bdd).nodes@.len(),
        final(bdd).dead_count >= old(bdd).dead_count,
        final(bdd).acct() >= old(bdd).acct(),
        forall|nv: int|
            vars_le(old(bdd).nodes@, nv) ==> #[trigger] vars_le(final(bdd).nodes@, nv),
        match spec_apply_general(
            old(bdd).nodes@,
            old(bdd).ref_counts@,
            old(bdd).computed_cache@,
            old(bdd).dead_count as int,
            *op,
            lhs,
            rhs,
        ) {
            Ok(st) => r == Ok::<Edge, BddError>(st.4) && final(bdd).nodes@ == st.0 && final(bdd).ref_counts@ == st.1 && final(bdd).computed_cache@ == st.2 && final(bdd).dead_count as int == st.3,
            Err(e) => r == Err::<Edge, BddError>(e),
        },
        *op is NOT ==> r is Err,
        !(*op is NOT) ==> (r matches Err(e) ==> is_resource_err(e)),
        r matches Ok(e) ==> {
            &&& final(bdd).valid_edge(e)
            &&& (edge_terminal(e) || node_var(final(bdd).nodes@, e) >= min_op_var(
                old(bdd).nodes@,
                lhs,
                rhs,
            ))
            &&& forall|a: Seq<bool>|
                #[trigger] eval_edge(final(bdd).nodes@, e, a) == op_bool(
                    *op,
                    eval_edge(old(bdd).nodes@, lhs, a),
                    eval_edge(old(bdd).nodes@, rhs, a),
                )
        },
    decreases eabs(lhs as int) + eabs(rhs as int), 0int,
{
    let nlen = bdd.nodes.len();
    proof {
        assert(1 <= eabs(lhs as int) <= nlen as int);
        assert(1 <= eabs(rhs as int) <= nlen as int);
        assert(wf_vertex_in(bdd.nodes@, eabs(lhs as int) - 1));
        assert(wf_vertex_in(bdd.nodes@, eabs(rhs as int) - 1));
        lemma_general_unfold(
            bdd.nodes@,
            bdd.ref_counts@,
            bdd.computed_cache@,
            bdd.dead_count as int,
            *op,
            lhs,
            rhs,
        );
    }
    let alhs = edge_abs(lhs);
    let arhs = edge_abs(rhs);
        let cf = match apply_split(bdd, lhs, rhs) {
            Ok(v) => v,
            Err(e) => {
                return Err(e);
            },
        };
        let min_var = cf.0;
        let lhs_lo = cf.1;
        let lhs_hi = cf.2;
        let rhs_lo = cf.3;
        let rhs_hi = cf.4;
        proof {
            assert(min_var as int == min_op_var(old(bdd).nodes@, lhs, rhs));
        }
        let ghost rc_split = bdd.ref_counts@;
        let ghost dead_split = bdd.dead_count as int;
        let hi_cofactor = match apply_helper(bdd, op, lhs_hi, rhs_hi) {
            Ok(v) => v,
            Err(e) => {
                return Err(e);
            },
        };
        proof {
            assert(spec_apply(
                old(bdd).nodes@,
                rc_split,
                old(bdd).computed_cache@,
                dead_split,
                *op,
                lhs_hi,
                rhs_hi,
            ) == Ok::<(Seq<Vertex>, Seq<usize>, Seq<(Expr, Edge)>, int, Edge), BddError>(
                (
                    bdd.nodes@,
                    bdd.ref_counts@,
                    bdd.computed_cache@,
                    bdd.dead_count as int,
                    hi_cofactor,
                ),
            ));
        }
        let ghost st_hi = (bdd.nodes@, bdd.ref_counts@, bdd.computed_cache@, bdd.dead_count as int);
        let ghost nodes_after_hi = bdd.nodes@;
        let lo_cofactor = match apply_helper(bdd, op, lhs_lo, rhs_lo) {
            Ok(v) => v,
            Err(e) => {
                return Err(e);
            },
        };
        proof {
            assert(spec_apply(st_hi.0, st_hi.1, st_hi.2, st_hi.3, *op, lhs_lo, rhs_lo) == Ok::<
                (Seq<Vertex>, Seq<usize>, Seq<(Expr, Edge)>, int, Edge),
                BddError,
            >(
                (
                    bdd.nodes@,
                    bdd.ref_counts@,
                    bdd.computed_cache@,
                    bdd.dead_count as int,
                    lo_cofactor,
                ),
            ));
        }
        let ghost nodes_after_lo = bdd.nodes@;
        proof {
            lemma_prefix_trans(old(bdd).nodes@, nodes_after_hi, nodes_after_lo);
            lemma_prefix_node_facts(old(bdd).nodes@, nodes_after_lo, lhs);
            lemma_prefix_node_facts(old(bdd).nodes@, nodes_after_lo, rhs);
            lemma_prefix_node_facts(old(bdd).nodes@, nodes_after_hi, lhs_lo);
            lemma_prefix_node_facts(old(bdd).nodes@, nodes_after_hi, rhs_lo);
            lemma_prefix_node_facts(old(bdd).nodes@, nodes_after_lo, lhs_lo);
            lemma_prefix_node_facts(old(bdd).nodes@, nodes_after_lo, rhs_lo);
            lemma_prefix_node_facts(nodes_after_hi, nodes_after_lo, hi_cofactor);
            assert(bdd.make_args_ok(min_var, lo_cofactor, hi_cofactor));
        }
        proof {
            lemma_prefix_node_facts(old(bdd).nodes@, nodes_after_hi, lhs_lo);
            lemma_prefix_node_facts(old(bdd).nodes@, nodes_after_hi, rhs_lo);
            lemma_prefix_node_facts(old(bdd).nodes@, nodes_after_lo, lhs);
            lemma_prefix_node_facts(old(bdd).nodes@, nodes_after_lo, rhs);
        }
        let res = match apply_combine(
            bdd,
            op,
            lhs,
            rhs,
            min_var,
            lhs_lo,
            lhs_hi,
            rhs_lo,
            rhs_hi,
            lo_cofactor,
            hi_cofactor,
            Ghost(old(bdd).nodes@),
            Ghost(nodes_after_hi),
        ) {
            Ok(v) => v,
            Err(e) => {
                return Err(e);
            },
        };
        Ok(res)
}

/// Builds and memoizes the vertex that joins two recursively combined
/// cofactors, and carries their semantics up to the combined operands.
#[verifier::rlimit(100)]
#[verifier::spinoff_prover]
fn apply_combine(
    bdd: &mut BDD,
    op: &Operator,
    lhs: Edge,
    rhs: Edge,
    min_var: i64,
    lhs_lo: Edge,
    lhs_hi: Edge,
    rhs_lo: Edge,
    rhs_hi: Edge,
    lo_cofactor: Edge,
    hi_cofactor: Edge,
    Ghost(onodes): Ghost<Seq<Vertex>>,
    Ghost(n1): Ghost<Seq<Vertex>>,
) -> (r: Result<Edge, BddError>)
    requires
        old(bdd).wf(),
        onodes.is_prefix_of(n1),
        n1.is_prefix_of(old(bdd).nodes@),
        1 <= eabs(lhs as int) <= onodes.len(),
        1 <= eabs(rhs as int) <= onodes.len(),
        lhs != i64::MIN && rhs != i64::MIN,
        !edge_terminal(lhs) && !edge_terminal(rhs),
        eabs(lhs as int) != eabs(rhs as int),
        lhs_lo != i64::MIN && 1 <= eabs(lhs_lo as int) <= onodes.len(),
        lhs_hi != i64::MIN && 1 <= eabs(lhs_hi as int) <= onodes.len(),
        rhs_lo != i64::MIN && 1 <= eabs(rhs_lo as int) <= onodes.len(),
        rhs_hi != i64::MIN && 1 <= eabs(rhs_hi as int) <= onodes.len(),
        hi_cofactor != i64::MIN && 1 <= eabs(hi_cofactor as int) <= n1.len(),
        lo_cofactor != i64::MIN && 1 <= eabs(lo_cofactor as int) <= old(bdd).nodes@.len(),
        old(bdd).make_args_ok(min_var, lo_cofactor, hi_cofactor),
        min_op_var(onodes, lhs, rhs) == min_var as int,
        !(*op is NOT),
        forall|a: Seq<bool>|
            #[trigger] eval_edge(onodes, lhs, a) == (if assign_val(a, min_var as int) {
                eval_edge(onodes, lhs_hi, a)
            } else {
                eval_edge(onodes, lhs_lo, a)
            }),
        forall|a: Seq<bool>|
            #[trigger] eval_edge(onodes, rhs, a) == (if assign_val(a, min_var as int) {
                eval_edge(onodes, rhs_hi, a)
            } else {
                eval_edge(onodes, rhs_lo, a)
            }),
        forall|a: Seq<bool>|
            #[trigger] eval_edge(n1, hi_cofactor, a) == op_bool(
                *op,
                eval_edge(onodes, lhs_hi, a),
                eval_edge(onodes, rhs_hi, a),
            ),
        forall|a: Seq<bool>|
            #[trigger] eval_edge(old(bdd).nodes@, lo_cofactor, a) == op_bool(
                *op,
                eval_edge(n1, lhs_lo, a),
                eval_edge(n1, rhs_lo, a),
            ),
    ensures
        final(bdd).wf(),
        final(bdd).roots@ == old(bdd).roots@,
        final(bdd).ordering@ == old(bdd).ordering@,
        old(bdd).nodes@.is_prefix_of(final(bdd).nodes@),
        old(bdd).computed_cache@.is_prefix_of(final(bdd).computed_cache@),
        final(bdd).ref_counts@.len() == final(bdd).nodes@.len(),
        final(bdd).dead_count == old(bdd).dead_count,
        final(bdd).acct() >= old(bdd).acct(),
        forall|nv: int|
            vars_le(old(bdd).nodes@, nv) && min_var as int <= nv ==> #[trigger] vars_le(
                final(bdd).nodes@,
                nv,
            ),
        match spec_make(
            old(bdd).nodes@,
            old(bdd).ref_counts@,
            min_var,
            lo_cofactor,
            hi_cofactor,
        ) {
            Ok(m) => r == Ok::<Edge, BddError>(m.2) && final(bdd).nodes@ == m.0 && final(bdd).ref_counts@ == m.1 && final(bdd).computed_cache@ == old(bdd).computed_cache@.push(
                (Expr { op: *op, lhs, rhs }, m.2),
            ),
            Err(_) => r == Err::<Edge, BddError>(BddError::CapacityExceeded) && spec_make(
                old(bdd).nodes@,
                old(bdd).ref_counts@,
                min_var,
                lo_cofactor,
                hi_cofactor,
            ) == Err::<(Seq<Vertex>, Seq<usize>, Edge), BddError>(BddError::CapacityExceeded),
        },
        r matches Ok(e) ==> {
            &&& final(bdd).valid_edge(e)
            &&& (edge_terminal(e) || node_var(final(bdd).nodes@, e) >= min_var as int)
            &&& forall|a: Seq<bool>|
                #[trigger] eval_edge(final(bdd).nodes@, e, a) == op_bool(
                    *op,
                    eval_edge(onodes, lhs, a),
                    eval_edge(onodes, rhs, a),
                )
        },
{
    let ghost nodes_after_lo = old(bdd).nodes@;
        let ghost pre_make_rc = bdd.ref_counts@;
        let res = match make(bdd, min_var, lo_cofactor, hi_cofactor) {
            Ok(v) => v,
            Err(e) => {
                return Err(e);
            },
        };
        let ghost nodes_after_make = bdd.nodes@;
        proof {
            lemma_prefix_trans(old(bdd).nodes@, nodes_after_lo, nodes_after_make);
            lemma_prefix_node_facts(old(bdd).nodes@, nodes_after_make, lhs);
            lemma_prefix_node_facts(old(bdd).nodes@, nodes_after_make, rhs);
        }
        let ghost pre_push = *bdd;
        proof {
            // the result denotes the operator applied to the operands:
            // the chained recursion combines the signed cofactors
            lemma_prefix_trans(onodes, n1, nodes_after_lo);
            lemma_shannon_sound(
                onodes,
                n1,
                nodes_after_lo,
                nodes_after_make,
                *op,
                lhs,
                rhs,
                lhs_lo,
                lhs_hi,
                rhs_lo,
                rhs_hi,
                min_var,
                hi_cofactor,
                lo_cofactor,
                res,
            );
        }
        bdd.computed_cache.push((Expr { op: *op, lhs, rhs }, res));
        proof {
            reveal(cache_entry_sound);
            lemma_prefix_trans(onodes, nodes_after_lo, bdd.nodes@);
            assert(cache_entry_sound(bdd.nodes@, Expr { op: *op, lhs, rhs }, res)) by {
                assert forall|a: Seq<bool>|
                    #[trigger] eval_edge(bdd.nodes@, res, a) == op_bool(
                        *op,
                        eval_edge(bdd.nodes@, lhs, a),
                        eval_edge(bdd.nodes@, rhs, a),
                    ) by {
                    lemma_eval_prefix_edge(onodes, bdd.nodes@, lhs, a);
                    lemma_eval_prefix_edge(onodes, bdd.nodes@, rhs, a);
                }
            }
            assert forall|kk: int|
                0 <= kk < bdd.computed_cache@.len() implies #[trigger] wf_cache_entry(
                bdd.nodes@,
                bdd.computed_cache@[kk].0,
                bdd.computed_cache@[kk].1,
            ) by {
                if kk < pre_push.computed_cache@.len() {
                    assert(wf_cache_entry(
                        pre_push.nodes@,
                        pre_push.computed_cache@[kk].0,
                        pre_push.computed_cache@[kk].1,
                    ));
                } else {
                    lemma_prefix_node_facts(onodes, bdd.nodes@, lhs);
                    lemma_prefix_node_facts(onodes, bdd.nodes@, rhs);
                    assert(min_op_var(bdd.nodes@, lhs, rhs) == min_var as int);
                    assert(edge_terminal(res) || node_var(bdd.nodes@, res) >= min_var as int);
                }
            }
            lemma_prefix_trans(
                old(bdd).computed_cache@,
                pre_push.computed_cache@,
                bdd.computed_cache@,
            );
        }
        Ok(res)
}

/// Every edge and its negation denote complementary functions.
proof fn lemma_eval_neg_all(nodes: Seq<Vertex>, e: Edge)
    requires
        e != i64::MIN,
        eabs(e as int) >= 1,
    ensures
        forall|a: Seq<bool>|
            #[trigger] eval_edge(nodes, (-(e as int)) as i64, a) == !eval_edge(nodes, e, a),
{
    assert forall|a: Seq<bool>|
        #[trigger] eval_edge(nodes, (-(e as int)) as i64, a) == !eval_edge(nodes, e, a) by {
        lemma_eval_neg(nodes, e, a);
    }
}

/// Combines two edges with a binary operator: the top level of the apply
/// engine.
pub fn apply(bdd: &mut BDD, op: &Operator, lhs: Edge, rhs: Edge) -> (r: Result<Edge, BddError>)
    requires
        old(bdd).wf(),
    ensures
        final(bdd).wf(),
        final(bdd).roots@ == old(bdd).roots@,
        final(bdd).ordering@ == old(bdd).ordering@,
        old(bdd).nodes@.is_prefix_of(final(bdd).nodes@),
        old(bdd).computed_cache@.is_prefix_of(final(bdd).computed_cache@),
        final(bdd).ref_counts@.len() == final(bdd).nodes@.len(),
        final(bdd).dead_count >= old(bdd).dead_count,
        final(bdd).acct() >= old(bdd).acct(),
        forall|nv: int|
            vars_le(old(bdd).nodes@, nv) ==> #[trigger] vars_le(final(bdd).nodes@, nv),
        !old(bdd).valid_edge(lhs) || !old(bdd).valid_edge(rhs) ==> r == Err::<Edge, BddError>(
            BddError::MissingVertex,
        ) && *final(bdd) == *old(bdd),
        old(bdd).valid_edge(lhs) && old(bdd).valid_edge(rhs) ==> match spec_apply(
            old(bdd).nodes@,
            old(bdd).ref_counts@,
            old(bdd).computed_cache@,
            old(bdd).dead_count as int,
            *op,
            lhs,
            rhs,
        ) {
            Ok(st) => r == Ok::<Edge, BddError>(st.4) && final(bdd).nodes@ == st.0 && final(bdd).ref_counts@ == st.1 && final(bdd).computed_cache@ == st.2 && final(bdd).dead_count as int == st.3,
            Err(e) => r == Err::<Edge, BddError>(e),
        },
        *op is NOT ==> r is Err,
        old(bdd).valid_edge(lhs) && old(bdd).valid_edge(rhs) && !(*op is NOT) ==> (r matches Err(e)
            ==> is_resource_err(e)),
        r matches Ok(e) ==> {
            &&& final(bdd).valid_edge(e)
            &&& (edge_terminal(e) || node_var(final(bdd).nodes@, e) >= min_op_var(
                old(bdd).nodes@,
                lhs,
                rhs,
            ))
            &&& (edge_terminal(lhs) && edge_terminal(rhs) ==> e == const_edge(
                op_bool(*op, lhs == 1, rhs == 1),
            ) && final(bdd).nodes@ == old(bdd).nodes@)
            &&& (edge_terminal(lhs) != edge_terminal(rhs) ==> e == one_terminal_result(
                *op,
                lhs,
                rhs,
            ) && final(bdd).nodes@ == old(bdd).nodes@)
            &&& (!edge_terminal(lhs) && !edge_terminal(rhs) && lhs == rhs ==> e
                == diagonal_result(*op, lhs) && final(bdd).nodes@ == old(bdd).nodes@)
            &&& (!edge_terminal(lhs) && !edge_terminal(rhs) && lhs != rhs && eabs(lhs as int)
                == eabs(rhs as int) ==> e == complement_result(*op) && final(bdd).nodes@ == old(bdd).nodes@)
            &&& forall|a: Seq<bool>|
                #[trigger] eval_edge(final(bdd).nodes@, e, a) == op_bool(
                    *op,
                    eval_edge(old(bdd).nodes@, lhs, a),
                    eval_edge(old(bdd).nodes@, rhs, a),
                )
        },
{
    apply_helper(bdd, op, lhs, rhs)
}

/// Registers a new variable symbol at the next free position of the
/// ordering and materializes its elementary BDD (`make(position + 1,
/// FALSE, TRUE)`), registering the resulting edge as a root. Re-declaring
/// a symbol is a usage error and leaves the session unchanged.
pub fn add_var(bdd: &mut BDD, var: char) -> (r: Result<(), BddError>)
    requires
        old(bdd).wf(),
    ensures
        final(bdd).wf(),
        old(bdd).ordering@.contains(var) ==> r == Err::<(), BddError>(BddError::DuplicateVariable)
            && *final(bdd) == *old(bdd),
        !old(bdd).ordering@.contains(var) ==> match r {
            Ok(_) => {
                let e = final(bdd).roots@.last();
                &&& final(bdd).ordering@ == old(bdd).ordering@.push(var)
                &&& final(bdd).roots@ == old(bdd).roots@.push(e)
                &&& e > 0
                &&& final(bdd).valid_edge(e)
                &&& final(bdd).vertex_of(e) == (Vertex {
                    var: (old(bdd).ordering@.len() + 1) as i64,
                    lo: -1i64,
                    hi: 1i64,
                })
                &&& final(bdd).computed_cache@ == old(bdd).computed_cache@
                &&& old(bdd).nodes@.is_prefix_of(final(bdd).nodes@)
                &&& final(bdd).dead_count == old(bdd).dead_count
                &&& final(bdd).acct() >= old(bdd).acct()
                &&& forall|nv: int|
                    vars_le(old(bdd).nodes@, nv) && old(bdd).ordering@.len() + 1 <= nv
                        ==> #[trigger] vars_le(final(bdd).nodes@, nv)
            },
            Err(e) => e == BddError::CapacityExceeded && final(bdd).ordering@ == old(bdd).ordering@ && final(bdd).roots@ == old(bdd).roots@ && (old(bdd).ordering@.len()
                >= MAX_VERTICES as int || old(bdd).ordering@.len() + 1 > usize::MAX as int
                || spec_make(
                old(bdd).nodes@,
                old(bdd).ref_counts@,
                (old(bdd).ordering@.len() + 1) as i64,
                -1i64,
                1i64,
            ) == Err::<(Seq<Vertex>, Seq<usize>, Edge), BddError>(BddError::CapacityExceeded)),
        },
{
    let mut i: usize = 0;
    let olen = bdd.ordering.len();
    while i < olen
        invariant
            bdd.wf(),
            *bdd == *old(bdd),
            olen == bdd.ordering@.len(),
            0 <= i <= olen,
            forall|j: int| 0 <= j < i ==> bdd.ordering@[j] != var,
        decreases olen - i,
    {
        if bdd.ordering[i] == var {
            return Err(BddError::DuplicateVariable);
        }
        i = i + 1;
    }
    if olen as u64 >= MAX_VERTICES || olen == usize::MAX {
        return Err(BddError::CapacityExceeded);
    }
    let vid = (olen + 1) as i64;
    let res = match make(bdd, vid, -1, 1) {
        Ok(v) => v,
        Err(_) => {
            return Err(BddError::CapacityExceeded);
        },
    };
    bdd.ordering.push(var);
    bdd.roots.push(res);
    proof {
        assert forall|kk: int| 0 <= kk < bdd.roots@.len() implies edge_ok(
            bdd.nodes@,
            #[trigger] bdd.roots@[kk],
        ) by {}
        assert forall|ii: int, jj: int|
            0 <= ii < jj < bdd.ordering@.len() implies bdd.ordering@[ii] != bdd.ordering@[jj] by {
            if jj == bdd.ordering@.len() - 1 {
                assert(bdd.ordering@[ii] == old(bdd).ordering@[ii]);
            }
        }
    }
    Ok(())
}

/// The usage verdict of a post-order token stream against an ordering:
/// `None` when the stream is a well-formed RPN formula over known
/// variables, otherwise the first usage error it exhibits. `depth` is the
/// number of operands available so far.
pub open spec fn stream_verdict_from(
    eq: Seq<Token>,
    i: int,
    depth: int,
    entries: Seq<(char, usize)>,
) -> Option<BddError>
    decreases eq.len() - i,
{
    if i < 0 || i >= eq.len() {
        if depth == 1 {
            None
        } else if depth == 0 {
            Some(BddError::EmptyExpression)
        } else {
            Some(BddError::UnbalancedExpression)
        }
    } else {
        match eq[i] {
            Token::VAR(c) => if !entries_has_key(entries, c) {
                Some(BddError::UnknownVariable)
            } else {
                stream_verdict_from(eq, i + 1, depth + 1, entries)
            },
            Token::OP(op) => if op is NOT {
                if depth < 1 {
                    Some(BddError::UnbalancedExpression)
                } else {
                    stream_verdict_from(eq, i + 1, depth, entries)
                }
            } else {
                if depth < 2 {
                    Some(BddError::UnbalancedExpression)
                } else {
                    stream_verdict_from(eq, i + 1, depth - 1, entries)
                }
            },
            _ => Some(BddError::UnexpectedToken),
        }
    }
}

/// Verdict of a whole stream.
pub open spec fn stream_verdict(eq: Seq<Token>, entries: Seq<(char, usize)>) -> Option<BddError> {
    stream_verdict_from(eq, 0, 0, entries)
}

/// Every position value of the ordering entries is below `nv`, so that
/// every vertex variable the Builder creates (position + 1) is at most
/// `nv`.
pub open spec fn entries_vals_lt(entries: Seq<(char, usize)>, nv: int) -> bool {
    forall|j: int| 0 <= j < entries.len() ==> (#[trigger] entries[j]).1 + 1 <= nv
}

/// Truth of a post-order token stream over the ordering entries, under
/// an assignment of the vertex variables (a symbol at position `p` reads
/// the value of variable `p + 1`). `None` on a malformed stream or an
/// unknown symbol.
pub open spec fn core_sem_from(
    eq: Seq<Token>,
    i: int,
    st: Seq<bool>,
    entries: Seq<(char, usize)>,
    a: Seq<bool>,
) -> Option<bool>
    decreases eq.len() - i,
{
    if i < 0 || i >= eq.len() {
        if st.len() == 1 {
            Some(st[0])
        } else {
            None
        }
    } else {
        match eq[i] {
            Token::VAR(c) => match entries_lookup(entries, c) {
                Some(p) => core_sem_from(eq, i + 1, st.push(assign_val(a, p + 1)), entries, a),
                None => None,
            },
            Token::OP(op) => if op is NOT {
                if st.len() >= 1 {
                    core_sem_from(eq, i + 1, st.drop_last().push(!st.last()), entries, a)
                } else {
                    None
                }
            } else {
                if st.len() >= 2 {
                    core_sem_from(
                        eq,
                        i + 1,
                        st.drop_last().drop_last().push(
                            op_bool(op, st.drop_last().last(), st.last()),
                        ),
                        entries,
                        a,
                    )
                } else {
                    None
                }
            },
            _ => None,
        }
    }
}

/// Truth of a whole stream under one assignment.
pub open spec fn core_sem(eq: Seq<Token>, entries: Seq<(char, usize)>, a: Seq<bool>) -> Option<
    bool,
> {
    core_sem_from(eq, 0, Seq::empty(), entries, a)
}

/// The Boolean functions of a stack of edges under one assignment.
pub open spec fn stack_evals(nodes: Seq<Vertex>, st: Seq<Edge>, a: Seq<bool>) -> Seq<bool> {
    Seq::new(st.len(), |j: int| eval_edge(nodes, st[j], a))
}

/// Growing the arena does not change the functions of stacked edges.
proof fn lemma_stack_evals_grow(n1: Seq<Vertex>, n2: Seq<Vertex>, st: Seq<Edge>, a: Seq<bool>)
    requires
        n1.is_prefix_of(n2),
        n1.len() <= MAX_VERTICES as int,
        forall|j: int| 0 <= j < st.len() ==> edge_ok(n1, #[trigger] st[j]),
    ensures
        stack_evals(n2, st, a) =~= stack_evals(n1, st, a),
{
    assert forall|j: int| 0 <= j < st.len() implies stack_evals(n2, st, a)[j] == stack_evals(
        n1,
        st,
        a,
    )[j] by {
        lemma_eval_prefix_edge(n1, n2, st[j], a);
    }
}

/// What the Builder does with one stream, one token at a time: a symbol
/// becomes its elementary vertex through `make` (positions at the
/// ceiling are a capacity condition), `NOT` flips the sign of the top
/// stack entry, a binary operator runs the apply engine on the top two;
/// exactly one entry must remain and is the root.
pub open spec fn spec_compile(
    nodes: Seq<Vertex>,
    rc: Seq<usize>,
    cache: Seq<(Expr, Edge)>,
    dead: int,
    eq: Seq<Token>,
    i: int,
    stack: Seq<Edge>,
    entries: Seq<(char, usize)>,
) -> Result<(Seq<Vertex>, Seq<usize>, Seq<(Expr, Edge)>, int, Edge), BddError>
    decreases eq.len() - i,
{
    if i < 0 || i >= eq.len() {
        if stack.len() == 1 {
            Ok((nodes, rc, cache, dead, stack[0]))
        } else if stack.len() == 0 {
            Err(BddError::EmptyExpression)
        } else {
            Err(BddError::UnbalancedExpression)
        }
    } else {
        match eq[i] {
            Token::VAR(c) => match entries_lookup(entries, c) {
                Some(p) => if p as int >= MAX_VERTICES as int || p as int + 1
                    > usize::MAX as int {
                    Err(BddError::CapacityExceeded)
                } else {
                    match spec_make(nodes, rc, (p + 1) as i64, -1i64, 1i64) {
                        Ok(m) => spec_compile(
                            m.0,
                            m.1,
                            cache,
                            dead,
                            eq,
                            i + 1,
                            stack.push(m.2),
                            entries,
                        ),
                        Err(_) => Err(BddError::CapacityExceeded),
                    }
                },
                None => Err(BddError::UnknownVariable),
            },
            Token::OP(o) => if o is NOT {
                if stack.len() < 1 {
                    Err(BddError::UnbalancedExpression)
                } else if stack.last() == i64::MIN {
                    Err(BddError::MissingVertex)
                } else {
                    spec_compile(
                        nodes,
                        rc,
                        cache,
                        dead,
                        eq,
                        i + 1,
                        stack.drop_last().push((-(stack.last() as int)) as i64),
                        entries,
                    )
                }
            } else {
                if stack.len() < 2 {
                    Err(BddError::UnbalancedExpression)
                } else {
                    match spec_apply(
                        nodes,
                        rc,
                        cache,
                        dead,
                        o,
                        stack.drop_last().last(),
                        stack.last(),
                    ) {
                        Ok(st) => spec_compile(
                            st.0,
                            st.1,
                            st.2,
                            st.3,
                            eq,
                            i + 1,
                            stack.drop_last().drop_last().push(st.4),
                            entries,
                        ),
                        Err(e) => Err(e),
                    }
                }
            },
            _ => Err(BddError::UnexpectedToken),
        }
    }
}

/// Compiles one post-order token stream into the session: variables become
/// elementary vertices through `make`, binary operators run the apply
/// engine on the top two stack entries, `NOT` negates the top entry
/// (a complement edge costs nothing). The final single stack entry is
/// registered as a root and denotes the stream's Boolean function under
/// every assignment. A malformed stream or an unknown variable is a
/// usage error and registers nothing.
pub fn build_helper(bdd: &mut BDD, eq: &Vec<Token>, order_map: &LinkedHashMap<char, usize>) -> (r:
    Result<(), BddError>)
    requires
        old(bdd).wf(),
    ensures
        final(bdd).wf(),
        final(bdd).ordering@ == old(bdd).ordering@,
        old(bdd).nodes@.is_prefix_of(final(bdd).nodes@),
        old(bdd).computed_cache@.is_prefix_of(final(bdd).computed_cache@),
        final(bdd).ref_counts@.len() == final(bdd).nodes@.len(),
        final(bdd).acct() >= old(bdd).acct(),
        forall|nv: int|
            vars_le(old(bdd).nodes@, nv) && entries_vals_lt(map_entries(*order_map), nv)
                ==> #[trigger] vars_le(final(bdd).nodes@, nv),
        match r {
            Ok(_) => {
                &&& stream_verdict(eq@, map_entries(*order_map)) is None
                &&& final(bdd).roots@.len() == old(bdd).roots@.len() + 1
                &&& final(bdd).roots@ == old(bdd).roots@.push(final(bdd).roots@.last())
                &&& final(bdd).valid_edge(final(bdd).roots@.last())
            },
            Err(e) => {
                &&& final(bdd).roots@ == old(bdd).roots@
                &&& match stream_verdict(eq@, map_entries(*order_map)) {
                    Some(err) => e == err || is_resource_err(e),
                    None => is_resource_err(e),
                }
            },
        },
        match spec_compile(
            old(bdd).nodes@,
            old(bdd).ref_counts@,
            old(bdd).computed_cache@,
            old(bdd).dead_count as int,
            eq@,
            0,
            Seq::<Edge>::empty(),
            map_entries(*order_map),
        ) {
            Ok(st) => r is Ok && final(bdd).nodes@ == st.0 && final(bdd).ref_counts@ == st.1
                && final(bdd).computed_cache@ == st.2 && final(bdd).dead_count as int == st.3
                && final(bdd).roots@ == old(bdd).roots@.push(st.4),
            Err(e) => r == Err::<(), BddError>(e),
        },
        r is Ok ==> forall|a: Seq<bool>|
            #[trigger] core_sem(eq@, map_entries(*order_map), a) == Some(
                eval_edge(final(bdd).nodes@, final(bdd).roots@.last(), a),
            ),
{
    let ghost entries = map_entries(*order_map);
    let mut op_stack: Vec<Edge> = Vec::new();
    let n_tokens = eq.len();
    let mut t: usize = 0;
    proof {
        assert forall|a: Seq<bool>|
            core_sem_from(eq@, 0, stack_evals(bdd.nodes@, op_stack@, a), entries, a)
                == #[trigger] core_sem(eq@, entries, a) by {
            assert(stack_evals(bdd.nodes@, op_stack@, a) =~= Seq::<bool>::empty());
        }
        assert(op_stack@ =~= Seq::<Edge>::empty());
    }
    while t < n_tokens
        invariant
            bdd.wf(),
            n_tokens == eq@.len(),
            0 <= t <= n_tokens,
            entries == map_entries(*order_map),
            bdd.ordering@ == old(bdd).ordering@,
            bdd.roots@ == old(bdd).roots@,
            old(bdd).nodes@.is_prefix_of(bdd.nodes@),
            old(bdd).computed_cache@.is_prefix_of(bdd.computed_cache@),
            bdd.ref_counts@.len() == bdd.nodes@.len(),
            bdd.acct() >= old(bdd).acct(),
            forall|nv: int|
                vars_le(old(bdd).nodes@, nv) && entries_vals_lt(entries, nv)
                    ==> #[trigger] vars_le(bdd.nodes@, nv),
            forall|j: int| 0 <= j < op_stack@.len() ==> edge_ok(bdd.nodes@, #[trigger] op_stack@[j]),
            stream_verdict_from(eq@, t as int, op_stack@.len() as int, entries) == stream_verdict(
                eq@,
                entries,
            ),
            spec_compile(
                bdd.nodes@,
                bdd.ref_counts@,
                bdd.computed_cache@,
                bdd.dead_count as int,
                eq@,
                t as int,
                op_stack@,
                entries,
            ) == spec_compile(
                old(bdd).nodes@,
                old(bdd).ref_counts@,
                old(bdd).computed_cache@,
                old(bdd).dead_count as int,
                eq@,
                0,
                Seq::<Edge>::empty(),
                entries,
            ),
            forall|a: Seq<bool>|
                core_sem_from(eq@, t as int, stack_evals(bdd.nodes@, op_stack@, a), entries, a)
                    == #[trigger] core_sem(eq@, entries, a),
        decreases n_tokens - t,
    {
        let ghost pre = *bdd;
        let ghost pre_stack = op_stack@;
        let token = eq[t];
        match token {
            Token::VAR(c) => {
                let p = match ordering_get(order_map, c) {
                    Some(p) => p,
                    None => {
                        proof {
                            lemma_lookup_none(entries, c, 0);
                        }
                        return Err(BddError::UnknownVariable);
                    },
                };
                proof {
                    lemma_lookup_none(entries, c, 0);
                }
                if p as u64 >= MAX_VERTICES || p == usize::MAX {
                    return Err(BddError::CapacityExceeded);
                }
                let node_id = match make(bdd, (p + 1) as i64, -1, 1) {
                    Ok(v) => v,
                    Err(_) => {
                        proof {
                            lemma_lookup_some_is_entry(entries, c, 0);
                            assert forall|nv: int|
                                vars_le(old(bdd).nodes@, nv) && entries_vals_lt(entries, nv)
                                    implies #[trigger] vars_le(bdd.nodes@, nv) by {
                                assert(vars_le(pre.nodes@, nv));
                            }
                        }
                        return Err(BddError::CapacityExceeded);
                    },
                };
                op_stack.push(node_id);
                proof {
                    lemma_lookup_some_is_entry(entries, c, 0);
                    assert forall|nv: int|
                        vars_le(old(bdd).nodes@, nv) && entries_vals_lt(entries, nv)
                            implies #[trigger] vars_le(bdd.nodes@, nv) by {
                        assert(vars_le(pre.nodes@, nv));
                    }
                    assert forall|j: int|
                        0 <= j < op_stack@.len() implies edge_ok(
                        bdd.nodes@,
                        #[trigger] op_stack@[j],
                    ) by {
                        if j < pre_stack.len() {
                            lemma_prefix_node_facts(pre.nodes@, bdd.nodes@, pre_stack[j]);
                        }
                    }
                    assert(spec_make(
                        pre.nodes@,
                        pre.ref_counts@,
                        (p + 1) as i64,
                        -1i64,
                        1i64,
                    ) == Ok::<(Seq<Vertex>, Seq<usize>, Edge), BddError>(
                        (bdd.nodes@, bdd.ref_counts@, node_id),
                    ));
                    assert(op_stack@ =~= pre_stack.push(node_id));
                    assert forall|a: Seq<bool>|
                        core_sem_from(
                            eq@,
                            t as int + 1,
                            stack_evals(bdd.nodes@, op_stack@, a),
                            entries,
                            a,
                        ) == #[trigger] core_sem(eq@, entries, a) by {
                        assert(eval_edge(bdd.nodes@, node_id, a) == assign_val(a, p as int + 1));
                        lemma_stack_evals_grow(pre.nodes@, bdd.nodes@, pre_stack, a);
                        assert(stack_evals(bdd.nodes@, op_stack@, a) =~= stack_evals(
                            pre.nodes@,
                            pre_stack,
                            a,
                        ).push(assign_val(a, p as int + 1)));
                        assert(core_sem_from(
                            eq@,
                            t as int,
                            stack_evals(pre.nodes@, pre_stack, a),
                            entries,
                            a,
                        ) == core_sem(eq@, entries, a));
                    }
                }
            },
            Token::OP(op) => {
                if matches!(op, Operator::NOT) {
                    let top = match op_stack.pop() {
                        Some(v) => v,
                        None => {
                            return Err(BddError::UnbalancedExpression);
                        },
                    };
                    // a complement edge: negating the top of the stack is free
                    op_stack.push(-top);
                    proof {
                        assert(top != i64::MIN);
                        assert(op_stack@ =~= pre_stack.drop_last().push((-(top as int)) as i64));
                        assert forall|a: Seq<bool>|
                            core_sem_from(
                                eq@,
                                t as int + 1,
                                stack_evals(bdd.nodes@, op_stack@, a),
                                entries,
                                a,
                            ) == #[trigger] core_sem(eq@, entries, a) by {
                            lemma_eval_neg(bdd.nodes@, top, a);
                            assert(stack_evals(bdd.nodes@, op_stack@, a) =~= stack_evals(
                                bdd.nodes@,
                                pre_stack,
                                a,
                            ).drop_last().push(!stack_evals(bdd.nodes@, pre_stack, a).last()));
                            assert(core_sem_from(
                                eq@,
                                t as int,
                                stack_evals(bdd.nodes@, pre_stack, a),
                                entries,
                                a,
                            ) == core_sem(eq@, entries, a));
                        }
                    }
                } else {
                    let rhs = match op_stack.pop() {
                        Some(v) => v,
                        None => {
                            return Err(BddError::UnbalancedExpression);
                        },
                    };
                    let lhs = match op_stack.pop() {
                        Some(v) => v,
                        None => {
                            return Err(BddError::UnbalancedExpression);
                        },
                    };
                    let res = match apply(bdd, &op, lhs, rhs) {
                        Ok(v) => v,
                        Err(e) => {
                            return Err(e);
                        },
                    };
                    op_stack.push(res);
                    proof {
                        assert forall|j: int|
                            0 <= j < op_stack@.len() implies edge_ok(
                            bdd.nodes@,
                            #[trigger] op_stack@[j],
                        ) by {
                            if j < op_stack@.len() - 1 {
                                lemma_prefix_node_facts(pre.nodes@, bdd.nodes@, pre_stack[j]);
                            }
                        }
                        assert(rhs == pre_stack.last() && lhs == pre_stack.drop_last().last());
                        assert(spec_apply(
                            pre.nodes@,
                            pre.ref_counts@,
                            pre.computed_cache@,
                            pre.dead_count as int,
                            op,
                            lhs,
                            rhs,
                        ) == Ok::<(Seq<Vertex>, Seq<usize>, Seq<(Expr, Edge)>, int, Edge), BddError>(
                            (
                                bdd.nodes@,
                                bdd.ref_counts@,
                                bdd.computed_cache@,
                                bdd.dead_count as int,
                                res,
                            ),
                        ));
                        assert(op_stack@ =~= pre_stack.drop_last().drop_last().push(res));
                        assert forall|a: Seq<bool>|
                            core_sem_from(
                                eq@,
                                t as int + 1,
                                stack_evals(bdd.nodes@, op_stack@, a),
                                entries,
                                a,
                            ) == #[trigger] core_sem(eq@, entries, a) by {
                            lemma_stack_evals_grow(pre.nodes@, bdd.nodes@, pre_stack, a);
                            assert(eval_edge(bdd.nodes@, res, a) == op_bool(
                                op,
                                eval_edge(pre.nodes@, lhs, a),
                                eval_edge(pre.nodes@, rhs, a),
                            ));
                            assert(stack_evals(bdd.nodes@, op_stack@, a) =~= stack_evals(
                                pre.nodes@,
                                pre_stack,
                                a,
                            ).drop_last().drop_last().push(
                                op_bool(
                                    op,
                                    stack_evals(pre.nodes@, pre_stack, a).drop_last().last(),
                                    stack_evals(pre.nodes@, pre_stack, a).last(),
                                ),
                            ));
                            assert(core_sem_from(
                                eq@,
                                t as int,
                                stack_evals(pre.nodes@, pre_stack, a),
                                entries,
                                a,
                            ) == core_sem(eq@, entries, a));
                        }
                    }
                }
            },
            _ => {
                return Err(BddError::UnexpectedToken);
            },
        }
        t = t + 1;
    }
    if op_stack.len() == 1 {
        let ghost end_stack = op_stack@;
        let root = match op_stack.pop() {
            Some(v) => v,
            None => {
                return Err(BddError::UnbalancedExpression);
            },
        };
        bdd.roots.push(root);
        proof {
            assert forall|kk: int|
                0 <= kk < bdd.roots@.len() implies edge_ok(bdd.nodes@, #[trigger] bdd.roots@[kk]) by {}
            assert(bdd.roots@ == old(bdd).roots@.push(root));
            assert(root == end_stack[0]);
            assert forall|a: Seq<bool>|
                #[trigger] core_sem(eq@, entries, a) == Some(
                    eval_edge(bdd.nodes@, root, a),
                ) by {
                assert(core_sem_from(
                    eq@,
                    n_tokens as int,
                    stack_evals(bdd.nodes@, end_stack, a),
                    entries,
                    a,
                ) == core_sem(eq@, entries, a));
                assert(stack_evals(bdd.nodes@, end_stack, a).len() == 1);
                assert(stack_evals(bdd.nodes@, end_stack, a)[0] == eval_edge(bdd.nodes@, root, a));
            }
        }
        Ok(())
    } else if op_stack.len() == 0 {
        Err(BddError::EmptyExpression)
    } else {
        Err(BddError::UnbalancedExpression)
    }
}

/// What compiling a whole batch of formulas does: each stream is compiled
/// against the state the previous ones left, its root appended; the first
/// failure stops the batch.
pub open spec fn spec_compile_all(
    nodes: Seq<Vertex>,
    rc: Seq<usize>,
    cache: Seq<(Expr, Edge)>,
    dead: int,
    roots: Seq<Edge>,
    exprs: Seq<Tokenized>,
    k: int,
    entries: Seq<(char, usize)>,
) -> Result<(Seq<Vertex>, Seq<usize>, Seq<(Expr, Edge)>, int, Seq<Edge>), BddError>
    decreases exprs.len() - k,
{
    if k < 0 || k >= exprs.len() {
        Ok((nodes, rc, cache, dead, roots))
    } else {
        match spec_compile(nodes, rc, cache, dead, exprs[k].rpn@, 0, Seq::empty(), entries) {
            Ok(st) => spec_compile_all(
                st.0,
                st.1,
                st.2,
                st.3,
                roots.push(st.4),
                exprs,
                k + 1,
                entries,
            ),
            Err(e) => Err(e),
        }
    }
}

/// Compiles every formula of a parsing session into the BDD, in order.
/// Each formula adds one root edge denoting that formula's Boolean
/// function; compilation stops at the first formula that fails, leaving
/// the already-compiled roots intact.
pub fn build(bdd: &mut BDD, parser: &Parser) -> (r: Result<(), BddError>)
    requires
        old(bdd).wf(),
    ensures
        final(bdd).wf(),
        final(bdd).ordering@ == old(bdd).ordering@,
        old(bdd).nodes@.is_prefix_of(final(bdd).nodes@),
        old(bdd).roots@.is_prefix_of(final(bdd).roots@),
        match r {
            Ok(_) => {
                &&& final(bdd).roots@.len() == old(bdd).roots@.len() + parser.exprs@.len()
                &&& forall|k: int|
                    0 <= k < parser.exprs@.len() ==> stream_verdict(
                        #[trigger] parser.exprs@[k].rpn@,
                        map_entries(parser.ast_order),
                    ) is None
            },
            Err(e) => is_resource_err(e) || exists|k: int|
                0 <= k < parser.exprs@.len() && stream_verdict(
                    #[trigger] parser.exprs@[k].rpn@,
                    map_entries(parser.ast_order),
                ) == Some(e),
        },
        match spec_compile_all(
            old(bdd).nodes@,
            old(bdd).ref_counts@,
            old(bdd).computed_cache@,
            old(bdd).dead_count as int,
            old(bdd).roots@,
            parser.exprs@,
            0,
            map_entries(parser.ast_order),
        ) {
            Ok(st) => r is Ok && final(bdd).nodes@ == st.0 && final(bdd).ref_counts@ == st.1
                && final(bdd).computed_cache@ == st.2 && final(bdd).dead_count as int == st.3
                && final(bdd).roots@ == st.4,
            Err(e) => r == Err::<(), BddError>(e),
        },
        r is Ok ==> forall|k: int, a: Seq<bool>|
            0 <= k < parser.exprs@.len() ==> #[trigger] core_sem(
                parser.exprs@[k].rpn@,
                map_entries(parser.ast_order),
                a,
            ) == Some(
                eval_edge(
                    final(bdd).nodes@,
                    final(bdd).roots@[old(bdd).roots@.len() + k],
                    a,
                ),
            ),
{
    let n_exprs = parser.exprs.len();
    let mut k: usize = 0;
    while k < n_exprs
        invariant
            bdd.wf(),
            n_exprs == parser.exprs@.len(),
            0 <= k <= n_exprs,
            bdd.ordering@ == old(bdd).ordering@,
            old(bdd).nodes@.is_prefix_of(bdd.nodes@),
            old(bdd).roots@.is_prefix_of(bdd.roots@),
            bdd.roots@.len() == old(bdd).roots@.len() + k,
            forall|j: int|
                0 <= j < k ==> stream_verdict(
                    #[trigger] parser.exprs@[j].rpn@,
                    map_entries(parser.ast_order),
                ) is None,
            spec_compile_all(
                bdd.nodes@,
                bdd.ref_counts@,
                bdd.computed_cache@,
                bdd.dead_count as int,
                bdd.roots@,
                parser.exprs@,
                k as int,
                map_entries(parser.ast_order),
            ) == spec_compile_all(
                old(bdd).nodes@,
                old(bdd).ref_counts@,
                old(bdd).computed_cache@,
                old(bdd).dead_count as int,
                old(bdd).roots@,
                parser.exprs@,
                0,
                map_entries(parser.ast_order),
            ),
            forall|j: int, a: Seq<bool>|
                0 <= j < k ==> #[trigger] core_sem(
                    parser.exprs@[j].rpn@,
                    map_entries(parser.ast_order),
                    a,
                ) == Some(eval_edge(bdd.nodes@, bdd.roots@[old(bdd).roots@.len() + j], a)),
        decreases n_exprs - k,
    {
        let ghost pre = *bdd;
        match build_helper(bdd, &parser.exprs[k].rpn, &parser.ast_order) {
            Ok(_) => {},
            Err(e) => {
                return Err(e);
            },
        }
        proof {
            lemma_prefix_trans(old(bdd).nodes@, pre.nodes@, bdd.nodes@);
            assert(old(bdd).roots@.is_prefix_of(bdd.roots@)) by {
                assert(pre.roots@ == bdd.roots@.subrange(0, pre.roots@.len() as int)) by {
                    assert(bdd.roots@ == pre.roots@.push(bdd.roots@.last()));
                    assert forall|j: int| 0 <= j < pre.roots@.len() implies pre.roots@[j]
                        == bdd.roots@.subrange(0, pre.roots@.len() as int)[j] by {}
                    assert(pre.roots@ =~= bdd.roots@.subrange(0, pre.roots@.len() as int));
                }
                assert(old(bdd).roots@ == pre.roots@.subrange(0, old(bdd).roots@.len() as int));
                lemma_prefix_trans(old(bdd).roots@, pre.roots@, bdd.roots@);
            }
            assert(spec_compile(
                pre.nodes@,
                pre.ref_counts@,
                pre.computed_cache@,
                pre.dead_count as int,
                parser.exprs@[k as int].rpn@,
                0,
                Seq::<Edge>::empty(),
                map_entries(parser.ast_order),
            ) == Ok::<(Seq<Vertex>, Seq<usize>, Seq<(Expr, Edge)>, int, Edge), BddError>(
                (
                    bdd.nodes@,
                    bdd.ref_counts@,
                    bdd.computed_cache@,
                    bdd.dead_count as int,
                    bdd.roots@.last(),
                ),
            ));
            assert forall|j: int, a: Seq<bool>|
                0 <= j < k as int + 1 implies #[trigger] core_sem(
                parser.exprs@[j].rpn@,
                map_entries(parser.ast_order),
                a,
            ) == Some(eval_edge(bdd.nodes@, bdd.roots@[old(bdd).roots@.len() + j], a)) by {
                if j < k as int {
                    assert(core_sem(parser.exprs@[j].rpn@, map_entries(parser.ast_order), a)
                        == Some(
                        eval_edge(pre.nodes@, pre.roots@[old(bdd).roots@.len() + j], a),
                    ));
                    assert(bdd.roots@[old(bdd).roots@.len() + j] == pre.roots@[old(bdd).roots@.len()
                        + j]);
                    lemma_eval_prefix_edge(
                        pre.nodes@,
                        bdd.nodes@,
                        pre.roots@[old(bdd).roots@.len() + j],
                        a,
                    );
                } else {
                    assert(core_sem(parser.exprs@[j].rpn@, map_entries(parser.ast_order), a)
                        == Some(eval_edge(bdd.nodes@, bdd.roots@.last(), a)));
                }
            }
        }
        k = k + 1;
    }
    Ok(())
}

/// Reference accounting: `dec_ref` keeps `dead_count` minus the number of
/// dead vertices exact (see its `ensures`), `inc_ref` and the hash-consing
/// hits of `make` can only grow it (a dead vertex brought back keeps its
/// place in the counter), and a fresh session starts with both at zero.
/// So in any session whose counter is exact — in particular one that
/// built its diagrams and then fully dereferenced every root, never
/// reviving a dead vertex — the cumulative dead counter equals the number
/// of distinct vertices whose count has reached zero, none counted twice.
pub proof fn law_reference_accounting(s1: BDD, s2: BDD)
    requires
        s1.acct() == s2.acct(),
        s1.dead_count == s1.dead_vertices(),
    ensures
        s2.dead_count == s2.dead_vertices(),
{
}

/// Number of satisfying assignments of the variables at 1-based positions
/// `i ..= nvars` for the function of an edge, by the standard
/// path-weighted recurrence: each variable skipped between a vertex and
/// its parent doubles the count, a complement edge counts the complement.
pub open spec fn spec_count(nodes: Seq<Vertex>, e: Edge, i: int, nvars: int) -> int
    decreases nvars + 1 - i, (if e < 0 { 1int } else { 0int }),
{
    if edge_terminal(e) {
        if e == 1 {
            pow2((nvars + 1 - i) as nat) as int
        } else {
            0
        }
    } else if e == i64::MIN {
        0
    } else if e < 0 {
        pow2((nvars + 1 - i) as nat) as int - spec_count(nodes, (-(e as int)) as i64, i, nvars)
    } else {
        let v = node_of(nodes, e);
        if i <= v.var <= nvars && nvars + 1 - i >= 0 {
            pow2((v.var - i) as nat) as int * (spec_count(nodes, v.lo, v.var as int + 1, nvars)
                + spec_count(nodes, v.hi, v.var as int + 1, nvars))
        } else {
            0
        }
    }
}

/// The count is between 0 and the number of assignments of the remaining
/// variables.
proof fn lemma_count_bound(nodes: Seq<Vertex>, e: Edge, i: int, nvars: int)
    requires
        nodes.len() >= 1,
        forall|k: int| 1 <= k < nodes.len() ==> #[trigger] wf_vertex_in(nodes, k),
        nodes.len() <= MAX_VERTICES as int,
        edge_ok(nodes, e),
        vars_le(nodes, nvars),
        1 <= i <= nvars + 1,
        !edge_terminal(e) ==> node_var(nodes, e) >= i,
    ensures
        0 <= spec_count(nodes, e, i, nvars) <= pow2((nvars + 1 - i) as nat),
    decreases nvars + 1 - i, (if e < 0 { 1int } else { 0int }),
{
    lemma_pow2_pos((nvars + 1 - i) as nat);
    if edge_terminal(e) {
    } else if e < 0 {
        lemma_count_bound(nodes, (-(e as int)) as i64, i, nvars);
    } else {
        let v = node_of(nodes, e);
        assert(wf_vertex_in(nodes, e - 1));
        assert(nodes[e - 1].var <= nvars);
        let j = v.var as int + 1;
        if !edge_terminal(v.lo) {
            assert(wf_vertex_in(nodes, eabs(v.lo as int) - 1));
        }
        if !edge_terminal(v.hi) {
            assert(wf_vertex_in(nodes, v.hi as int - 1));
        }
        lemma_count_bound(nodes, v.lo, j, nvars);
        lemma_count_bound(nodes, v.hi, j, nvars);
        let cl = spec_count(nodes, v.lo, j, nvars);
        let ch = spec_count(nodes, v.hi, j, nvars);
        let w = pow2((v.var - i) as nat) as int;
        assert(cl + ch <= 2 * pow2((nvars + 1 - j) as nat));
        assert(2 * pow2((nvars + 1 - j) as nat) == pow2((nvars + 2 - j) as nat)) by {
            lemma_pow2_unfold((nvars + 2 - j) as nat);
        }
        assert(w * (cl + ch) <= w * pow2((nvars + 2 - j) as nat)) by {
            lemma_mul_inequality(cl + ch, pow2((nvars + 2 - j) as nat) as int, w);
            lemma_pow2_pos((v.var - i) as nat);
        }
        assert(w * pow2((nvars + 2 - j) as nat) == pow2((nvars + 1 - i) as nat)) by {
            lemma_pow2_adds((v.var - i) as nat, (nvars + 2 - j) as nat);
        }
        assert(w * (cl + ch) >= 0) by {
            lemma_pow2_pos((v.var - i) as nat);
            lemma_mul_inequality(0, cl + ch, w);
        }
    }
}

/// `2^k` as a machine word.
fn pow2_u64(k: u64) -> (r: u64)
    requires
        k <= 63,
    ensures
        r as int == pow2(k as nat),
{
    let mut r: u64 = 1;
    let mut j: u64 = 0;
    proof {
        vstd::arithmetic::power2::lemma2_to64();
    }
    while j < k
        invariant
            0 <= j <= k <= 63,
            r as int == pow2(j as nat),
        decreases k - j,
    {
        proof {
            lemma_pow2_unfold((j + 1) as nat);
            if ((j + 1) as nat) < 63 {
                vstd::arithmetic::power2::lemma_pow2_strictly_increases((j + 1) as nat, 63);
            }
            vstd::arithmetic::power2::lemma2_to64_rest();
        }
        r = r * 2;
        j = j + 1;
    }
    r
}

/// Counts the satisfying assignments of the sub-function of an edge over
/// the variables from position `i` on.
#[verifier::rlimit(100)]
pub fn count_helper(bdd: &BDD, vertex_id: Edge, i: u64) -> (r: u64)
    requires
        bdd.wf(),
        bdd.valid_edge(vertex_id),
        bdd.vars_within(bdd.ordering@.len() as int),
        bdd.ordering@.len() <= 63,
        1 <= i <= bdd.ordering@.len() + 1,
        !bdd.is_terminal(vertex_id) ==> bdd.var_of(vertex_id) >= i,
    ensures
        r as int == spec_count(bdd.nodes@, vertex_id, i as int, bdd.ordering@.len() as int),
        0 <= r as int <= pow2((bdd.ordering@.len() + 1 - i) as nat),
    decreases bdd.ordering@.len() + 2 - i, (if vertex_id < 0 { 1int } else { 0int }),
{
    let nvars = bdd.ordering.len() as u64;
    let nlen = bdd.nodes.len();
    proof {
        lemma_count_bound(bdd.nodes@, vertex_id, i as int, nvars as int);
        assert(1 <= eabs(vertex_id as int) <= nlen as int);
    }
    let a = edge_abs(vertex_id);
    if a == 1 {
        if vertex_id == 1 {
            pow2_u64(nvars + 1 - i)
        } else {
            0
        }
    } else if vertex_id < 0 {
        let full = pow2_u64(nvars + 1 - i);
        let sub = count_helper(bdd, -vertex_id, i);
        proof {
            lemma_count_bound(bdd.nodes@, (-(vertex_id as int)) as i64, i as int, nvars as int);
        }
        full - sub
    } else {
        let v = bdd.nodes[(a - 1) as usize];
        proof {
            assert(wf_vertex_in(bdd.nodes@, a - 1));
            assert(bdd.nodes@[a - 1].var <= bdd.ordering@.len());
            assert(v == bdd.nodes@[a - 1]);
            assert(1 <= v.var <= bdd.ordering@.len());
            assert(1 <= eabs(v.lo as int) <= a - 1);
            assert(1 <= eabs(v.hi as int) <= a - 1);
            assert(v.var >= i);
            assert(!edge_terminal(v.lo) ==> node_var(bdd.nodes@, v.lo) > v.var);
            assert(!edge_terminal(v.hi) ==> node_var(bdd.nodes@, v.hi) > v.var);
        }
        let j = (v.var + 1) as u64;
        let lo_count = count_helper(bdd, v.lo, j);
        let hi_count = count_helper(bdd, v.hi, j);
        let w = pow2_u64((v.var as u64) - i);
        proof {
            lemma_count_bound(bdd.nodes@, v.lo, j as int, nvars as int);
            lemma_count_bound(bdd.nodes@, v.hi, j as int, nvars as int);
            lemma_pow2_unfold((nvars + 2 - j) as nat);
            lemma_pow2_adds((v.var - i) as nat, (nvars + 2 - j) as nat);
            lemma_pow2_pos((v.var - i) as nat);
            lemma_mul_inequality(
                lo_count as int + hi_count as int,
                pow2((nvars + 2 - j) as nat) as int,
                w as int,
            );
            lemma_mul_inequality(0, lo_count as int + hi_count as int, w as int);
            if ((nvars + 1 - i) as nat) < 64 {
                vstd::arithmetic::power2::lemma_pow2_strictly_increases((nvars + 1 - i) as nat, 64);
            }
            if ((nvars + 2 - j) as nat) < 64 {
                vstd::arithmetic::power2::lemma_pow2_strictly_increases((nvars + 2 - j) as nat, 64);
            }
            vstd::arithmetic::power2::lemma2_to64_rest();
        }
        w * (lo_count + hi_count)
    }
}

/// The number of assignments of the whole ordering that satisfy the
/// function of a root edge.
pub fn satisfy_count(bdd: &BDD, root: Edge) -> (r: u64)
    requires
        bdd.wf(),
        bdd.valid_edge(root),
        bdd.vars_within(bdd.ordering@.len() as int),
        bdd.ordering@.len() <= 63,
    ensures
        r as int == spec_count(bdd.nodes@, root, 1, bdd.ordering@.len() as int),
{
    proof {
        if !bdd.is_terminal(root) {
            assert(wf_vertex_in(bdd.nodes@, eabs(root as int) - 1));
        }
    }
    count_helper(bdd, root, 1)
}

} // verus!