//! The mathematical model of the diagram.
//!
//! A node store is modelled as a `Seq<BddNode>`; an edge denotes a Boolean
//! function of a total assignment `Map<u32, bool>` from levels to values,
//! given by [`evals`]. The well-formedness predicates say what the store
//! invariant guarantees: children stand strictly below their parent in the
//! store, strictly above it in the level order, no node is redundant, and no
//! triple occurs twice. On such stores the representation is canonical:
//! [`lemma_canonical`] shows that two edges with the same denotation are the
//! same edge.

use vstd::prelude::*;
use crate::types::{BddNode, BinOp, Edge};

verus! {

/// The sentinel level of the terminals: strictly greater than every level an
/// inner node can carry (levels are `u32`).
pub open spec fn terminal_level() -> int {
    0x1_0000_0000
}

/// A rank that decreases from a node to its children, used as the measure of
/// every recursion over the diagram.
pub open spec fn edge_rank(e: Edge) -> int {
    match e {
        Edge::Terminal(_) => 0,
        Edge::Inner(i) => i as int + 1,
    }
}

/// The edge refers into the store.
pub open spec fn edge_valid(nodes: Seq<BddNode>, e: Edge) -> bool {
    match e {
        Edge::Terminal(_) => true,
        Edge::Inner(i) => i < nodes.len(),
    }
}

/// The level an edge tests first: the node's level, or the sentinel for a
/// terminal.
pub open spec fn edge_level(nodes: Seq<BddNode>, e: Edge) -> int {
    match e {
        Edge::Terminal(_) => terminal_level(),
        Edge::Inner(i) => nodes[i as int].level as int,
    }
}

/// Well-formedness of one node: its children already stand in the store
/// below it, their levels are strictly greater than its own, and they
/// differ (no redundant node).
pub open spec fn node_wf(nodes: Seq<BddNode>, i: int) -> bool {
    let n = nodes[i];
    &&& edge_rank(n.then_child) <= i
    &&& edge_rank(n.else_child) <= i
    &&& edge_valid(nodes, n.then_child)
    &&& edge_valid(nodes, n.else_child)
    &&& edge_level(nodes, n.then_child) > n.level
    &&& edge_level(nodes, n.else_child) > n.level
    &&& n.then_child != n.else_child
}

/// Every node of the store is well-formed.
pub open spec fn nodes_wf(nodes: Seq<BddNode>) -> bool {
    forall|i: int| 0 <= i < nodes.len() ==> #[trigger] node_wf(nodes, i)
}

/// No `(level, then, else)` triple occurs twice: the store is strongly
/// canonical.
pub open spec fn nodes_unique(nodes: Seq<BddNode>) -> bool {
    forall|i: int, j: int|
        0 <= i < nodes.len() && 0 <= j < nodes.len() && i != j
            ==> #[trigger] nodes[i] != #[trigger] nodes[j]
}

/// The Boolean function an edge denotes, applied to a total assignment of
/// levels to values.
pub open spec fn evals(nodes: Seq<BddNode>, e: Edge, a: Map<u32, bool>) -> bool
    decreases edge_rank(e)
    when nodes_wf(nodes) && edge_valid(nodes, e)
{
    match e {
        Edge::Terminal(b) => b,
        Edge::Inner(i) => {
            proof {
                assert(node_wf(nodes, i as int));
            }
            let n = nodes[i as int];
            if a[n.level] {
                evals(nodes, n.then_child, a)
            } else {
                evals(nodes, n.else_child, a)
            }
        }
    }
}

/// The truth table of a binary connective.
pub open spec fn bin_apply(op: BinOp, x: bool, y: bool) -> bool {
    match op {
        BinOp::And => x && y,
        BinOp::Or => x || y,
        BinOp::Nand => !(x && y),
        BinOp::Nor => !(x || y),
        BinOp::Xor => x != y,
        BinOp::Equiv => x == y,
        BinOp::Imp => !x || y,
        BinOp::ImpStrict => !x && y,
    }
}

/// Whether the connective is commutative, so that the apply cache may sort
/// its operands.
pub open spec fn bin_commutative(op: BinOp) -> bool {
    match op {
        BinOp::And | BinOp::Or | BinOp::Nand | BinOp::Nor | BinOp::Xor | BinOp::Equiv => true,
        BinOp::Imp | BinOp::ImpStrict => false,
    }
}

/// The all-false assignment, a convenient base point.
pub open spec fn all_false() -> Map<u32, bool> {
    Map::total(|l: u32| false)
}

/// The larger of the two ranks.
pub open spec fn max_rank(e1: Edge, e2: Edge) -> int {
    if edge_rank(e1) >= edge_rank(e2) {
        edge_rank(e1)
    } else {
        edge_rank(e2)
    }
}

/// The denotation reads the assignment only at levels at or below the
/// edge's own level in the order (numerically `>= bound`): assignments that
/// agree there evaluate equally.
pub proof fn lemma_evals_agree(
    nodes: Seq<BddNode>,
    e: Edge,
    a1: Map<u32, bool>,
    a2: Map<u32, bool>,
    bound: int,
)
    requires
        nodes_wf(nodes),
        edge_valid(nodes, e),
        edge_level(nodes, e) >= bound,
        forall|l: u32| l as int >= bound ==> a1[l] == a2[l],
    ensures
        evals(nodes, e, a1) == evals(nodes, e, a2),
    decreases edge_rank(e),
{
    match e {
        Edge::Terminal(_) => {}
        Edge::Inner(i) => {
            assert(node_wf(nodes, i as int));
            let n = nodes[i as int];
            assert(a1[n.level] == a2[n.level]);
            lemma_evals_agree(nodes, n.then_child, a1, a2, n.level as int + 1);
            lemma_evals_agree(nodes, n.else_child, a1, a2, n.level as int + 1);
        }
    }
}

/// Appending nodes to the store changes no existing denotation.
pub proof fn lemma_evals_extend(pre: Seq<BddNode>, post: Seq<BddNode>, e: Edge)
    requires
        nodes_wf(pre),
        nodes_wf(post),
        pre.is_prefix_of(post),
        edge_valid(pre, e),
    ensures
        forall|a: Map<u32, bool>| #[trigger] evals(post, e, a) == evals(pre, e, a),
        edge_level(post, e) == edge_level(pre, e),
    decreases edge_rank(e),
{
    match e {
        Edge::Terminal(_) => {}
        Edge::Inner(i) => {
            assert(node_wf(pre, i as int));
            assert(post[i as int] == pre[i as int]);
            let n = pre[i as int];
            lemma_evals_extend(pre, post, n.then_child);
            lemma_evals_extend(pre, post, n.else_child);
            assert forall|a: Map<u32, bool>| #[trigger] evals(post, e, a) == evals(pre, e, a) by {
                if a[n.level] {
                    assert(evals(post, e, a) == evals(post, n.then_child, a));
                } else {
                    assert(evals(post, e, a) == evals(post, n.else_child, a));
                }
            }
        }
    }
}

/// On a well-formed, canonical store, two distinct edges denote distinct
/// functions: the returned assignment tells them apart.
pub proof fn lemma_distinct_edges(nodes: Seq<BddNode>, e1: Edge, e2: Edge) -> (a: Map<u32, bool>)
    requires
        nodes_wf(nodes),
        nodes_unique(nodes),
        edge_valid(nodes, e1),
        edge_valid(nodes, e2),
        e1 != e2,
    ensures
        evals(nodes, e1, a) != evals(nodes, e2, a),
    decreases max_rank(e1, e2), 1int,
{
    match (e1, e2) {
        (Edge::Terminal(_), Edge::Terminal(_)) => all_false(),
        (Edge::Terminal(b), Edge::Inner(j)) => {
            let a = lemma_inner_not_const(nodes, j, b);
            a
        }
        (Edge::Inner(i), Edge::Terminal(b)) => {
            let a = lemma_inner_not_const(nodes, i, b);
            a
        }
        (Edge::Inner(i), Edge::Inner(j)) => {
            assert(node_wf(nodes, i as int));
            assert(node_wf(nodes, j as int));
            let n1 = nodes[i as int];
            let n2 = nodes[j as int];
            if n1.level < n2.level {
                lemma_distinct_levels(nodes, i, e2)
            } else if n2.level < n1.level {
                lemma_distinct_levels(nodes, j, e1)
            } else {
                // same level; by uniqueness some child pair differs
                assert(n1 != n2);
                if n1.then_child != n2.then_child {
                    let a0 = lemma_distinct_edges(nodes, n1.then_child, n2.then_child);
                    let a = a0.insert(n1.level, true);
                    lemma_evals_agree(nodes, n1.then_child, a, a0, n1.level as int + 1);
                    lemma_evals_agree(nodes, n2.then_child, a, a0, n2.level as int + 1);
                    assert(evals(nodes, e1, a) == evals(nodes, n1.then_child, a0));
                    assert(evals(nodes, e2, a) == evals(nodes, n2.then_child, a0));
                    a
                } else {
                    assert(n1.else_child != n2.else_child);
                    let a0 = lemma_distinct_edges(nodes, n1.else_child, n2.else_child);
                    let a = a0.insert(n1.level, false);
                    lemma_evals_agree(nodes, n1.else_child, a, a0, n1.level as int + 1);
                    lemma_evals_agree(nodes, n2.else_child, a, a0, n2.level as int + 1);
                    assert(evals(nodes, e1, a) == evals(nodes, n1.else_child, a0));
                    assert(evals(nodes, e2, a) == evals(nodes, n2.else_child, a0));
                    a
                }
            }
        }
    }
}

/// An inner node never denotes a constant: the returned assignment makes it
/// evaluate to the negation of `b`.
proof fn lemma_inner_not_const(nodes: Seq<BddNode>, i: usize, b: bool) -> (a: Map<u32, bool>)
    requires
        nodes_wf(nodes),
        nodes_unique(nodes),
        i < nodes.len(),
    ensures
        evals(nodes, Edge::Inner(i), a) == !b,
    decreases i as int + 1, 0int,
{
    assert(node_wf(nodes, i as int));
    let n = nodes[i as int];
    let a0 = lemma_distinct_edges(nodes, n.then_child, n.else_child);
    let at = a0.insert(n.level, true);
    let ae = a0.insert(n.level, false);
    lemma_evals_agree(nodes, n.then_child, at, a0, n.level as int + 1);
    lemma_evals_agree(nodes, n.else_child, ae, a0, n.level as int + 1);
    assert(evals(nodes, Edge::Inner(i), at) == evals(nodes, n.then_child, a0));
    assert(evals(nodes, Edge::Inner(i), ae) == evals(nodes, n.else_child, a0));
    if evals(nodes, n.then_child, a0) == !b {
        at
    } else {
        ae
    }
}

/// The node at `i` stands at a strictly higher level (a smaller number) than
/// `other`: some assignment tells them apart.
proof fn lemma_distinct_levels(nodes: Seq<BddNode>, i: usize, other: Edge) -> (a: Map<u32, bool>)
    requires
        nodes_wf(nodes),
        nodes_unique(nodes),
        i < nodes.len(),
        edge_valid(nodes, other),
        edge_level(nodes, other) > nodes[i as int].level,
    ensures
        evals(nodes, Edge::Inner(i), a) != evals(nodes, other, a),
    decreases i as int + 1, 0int,
{
    assert(node_wf(nodes, i as int));
    let n = nodes[i as int];
    let a0 = lemma_distinct_edges(nodes, n.then_child, n.else_child);
    let at = a0.insert(n.level, true);
    let ae = a0.insert(n.level, false);
    lemma_evals_agree(nodes, n.then_child, at, a0, n.level as int + 1);
    lemma_evals_agree(nodes, n.else_child, ae, a0, n.level as int + 1);
    lemma_evals_agree(nodes, other, at, ae, n.level as int + 1);
    assert(evals(nodes, Edge::Inner(i), at) == evals(nodes, n.then_child, a0));
    assert(evals(nodes, Edge::Inner(i), ae) == evals(nodes, n.else_child, a0));
    if evals(nodes, other, at) == evals(nodes, Edge::Inner(i), at) {
        // then the else-assignment must differ, since the node's two values
        // differ while `other` keeps one value
        ae
    } else {
        at
    }
}

/// A cube: a chain of inner nodes, each carrying one literal, with the
/// terminal `false` on the complementary side, ending in the terminal
/// `true`. A positive literal has its else-child at `false`, a negative
/// literal its then-child.
pub open spec fn is_cube(nodes: Seq<BddNode>, v: Edge) -> bool
    decreases edge_rank(v)
    when nodes_wf(nodes) && edge_valid(nodes, v)
{
    match v {
        Edge::Terminal(b) => b,
        Edge::Inner(i) => {
            proof {
                assert(node_wf(nodes, i as int));
            }
            let n = nodes[i as int];
            ||| (n.else_child == Edge::Terminal(false) && is_cube(nodes, n.then_child))
            ||| (n.then_child == Edge::Terminal(false) && is_cube(nodes, n.else_child))
        }
    }
}

/// The assignment `a` overridden by the literals of the cube `v`.
pub open spec fn cube_assign(nodes: Seq<BddNode>, v: Edge, a: Map<u32, bool>) -> Map<u32, bool>
    decreases edge_rank(v)
    when nodes_wf(nodes) && edge_valid(nodes, v)
{
    match v {
        Edge::Terminal(_) => a,
        Edge::Inner(i) => {
            proof {
                assert(node_wf(nodes, i as int));
            }
            let n = nodes[i as int];
            if n.else_child == Edge::Terminal(false) {
                cube_assign(nodes, n.then_child, a).insert(n.level, true)
            } else {
                cube_assign(nodes, n.else_child, a).insert(n.level, false)
            }
        }
    }
}

/// A set of variables, encoded as their conjunction: a cube of positive
/// literals only.
pub open spec fn is_varset(nodes: Seq<BddNode>, v: Edge) -> bool
    decreases edge_rank(v)
    when nodes_wf(nodes) && edge_valid(nodes, v)
{
    match v {
        Edge::Terminal(b) => b,
        Edge::Inner(i) => {
            proof {
                assert(node_wf(nodes, i as int));
            }
            let n = nodes[i as int];
            n.else_child == Edge::Terminal(false) && is_varset(nodes, n.then_child)
        }
    }
}

/// Quantification of `f` over the variables of the set `v`, with the
/// connective `op` combining the two cofactors of each quantified variable:
/// `And` for every, `Or` for some, `Xor` for an odd number.
pub open spec fn quant_eval(
    nodes: Seq<BddNode>,
    op: BinOp,
    f: Edge,
    v: Edge,
    a: Map<u32, bool>,
) -> bool
    decreases edge_rank(v)
    when nodes_wf(nodes) && edge_valid(nodes, f) && edge_valid(nodes, v)
{
    match v {
        Edge::Terminal(_) => evals(nodes, f, a),
        Edge::Inner(i) => {
            proof {
                assert(node_wf(nodes, i as int));
            }
            let n = nodes[i as int];
            bin_apply(
                op,
                quant_eval(nodes, op, f, n.then_child, a.insert(n.level, true)),
                quant_eval(nodes, op, f, n.then_child, a.insert(n.level, false)),
            )
        }
    }
}

/// The assignment seen through a substitution: level `l` reads the value of
/// the replacement function `reps[l]` under `a`, and levels beyond the
/// replacement array are untouched.
pub open spec fn subst_lift(nodes: Seq<BddNode>, reps: Seq<Edge>, a: Map<u32, bool>) -> Map<
    u32,
    bool,
> {
    Map::total(
        |l: u32|
            if (l as int) < reps.len() {
                evals(nodes, reps[l as int], a)
            } else {
                a[l]
            },
    )
}

/// The level `l` appears in the diagram reachable from `e`.
pub open spec fn occurs(nodes: Seq<BddNode>, e: Edge, l: u32) -> bool
    decreases edge_rank(e)
    when nodes_wf(nodes) && edge_valid(nodes, e)
{
    match e {
        Edge::Terminal(_) => false,
        Edge::Inner(i) => {
            proof {
                assert(node_wf(nodes, i as int));
            }
            let n = nodes[i as int];
            ||| n.level == l
            ||| occurs(nodes, n.then_child, l)
            ||| occurs(nodes, n.else_child, l)
        }
    }
}

/// Every node level lies strictly below `bound`.
pub open spec fn levels_below(nodes: Seq<BddNode>, bound: int) -> bool {
    forall|i: int| 0 <= i < nodes.len() ==> (#[trigger] nodes[i].level) < bound
}

/// The number of assignments of the levels `lvl .. nvars` under which `e`
/// evaluates to true, all other levels being fixed by the walk so far.
pub open spec fn count_sat(nodes: Seq<BddNode>, e: Edge, lvl: int, nvars: int) -> nat
    decreases nvars - lvl
    when nodes_wf(nodes) && edge_valid(nodes, e) && levels_below(nodes, nvars) && lvl <= nvars
        && lvl <= edge_level(nodes, e)
{
    match e {
        Edge::Terminal(b) => if b {
            vstd::arithmetic::power2::pow2((nvars - lvl) as nat)
        } else {
            0
        },
        Edge::Inner(i) => {
            proof {
                assert(node_wf(nodes, i as int));
            }
            let n = nodes[i as int];
            if n.level == lvl {
                count_sat(nodes, n.then_child, lvl + 1, nvars) + count_sat(
                    nodes,
                    n.else_child,
                    lvl + 1,
                    nvars,
                )
            } else {
                2 * count_sat(nodes, e, lvl + 1, nvars)
            }
        }
    }
}

/// The cofactor of `e` at level `lvl`: the chosen child where `e` tests
/// `lvl`, and `e` itself where it does not depend on it.
pub open spec fn cofactor(nodes: Seq<BddNode>, e: Edge, lvl: int, b: bool) -> Edge {
    match e {
        Edge::Terminal(_) => e,
        Edge::Inner(i) => if nodes[i as int].level == lvl {
            if b {
                nodes[i as int].then_child
            } else {
                nodes[i as int].else_child
            }
        } else {
            e
        },
    }
}

/// Appending nodes changes no cube.
pub proof fn lemma_is_cube_extend(pre: Seq<BddNode>, post: Seq<BddNode>, v: Edge)
    requires
        nodes_wf(pre),
        nodes_wf(post),
        pre.is_prefix_of(post),
        edge_valid(pre, v),
    ensures
        is_cube(post, v) == is_cube(pre, v),
        is_varset(post, v) == is_varset(pre, v),
    decreases edge_rank(v),
{
    match v {
        Edge::Terminal(_) => {}
        Edge::Inner(i) => {
            assert(node_wf(pre, i as int));
            assert(post[i as int] == pre[i as int]);
            let n = pre[i as int];
            lemma_is_cube_extend(pre, post, n.then_child);
            lemma_is_cube_extend(pre, post, n.else_child);
        }
    }
}

/// Appending nodes changes no cube assignment.
pub proof fn lemma_cube_assign_extend(pre: Seq<BddNode>, post: Seq<BddNode>, v: Edge)
    requires
        nodes_wf(pre),
        nodes_wf(post),
        pre.is_prefix_of(post),
        edge_valid(pre, v),
    ensures
        forall|a: Map<u32, bool>| #[trigger] cube_assign(post, v, a) == cube_assign(pre, v, a),
    decreases edge_rank(v),
{
    match v {
        Edge::Terminal(_) => {
            assert forall|a: Map<u32, bool>| #[trigger] cube_assign(post, v, a) == cube_assign(
                pre,
                v,
                a,
            ) by {
                assert(cube_assign(post, v, a) == a);
                assert(cube_assign(pre, v, a) == a);
            }
        }
        Edge::Inner(i) => {
            assert(node_wf(pre, i as int));
            assert(post[i as int] == pre[i as int]);
            let n = pre[i as int];
            lemma_cube_assign_extend(pre, post, n.then_child);
            lemma_cube_assign_extend(pre, post, n.else_child);
            assert forall|a: Map<u32, bool>| #[trigger] cube_assign(post, v, a) == cube_assign(
                pre,
                v,
                a,
            ) by {
                if n.else_child == Edge::Terminal(false) {
                    assert(cube_assign(post, v, a) == cube_assign(post, n.then_child, a).insert(
                        n.level,
                        true,
                    ));
                    assert(cube_assign(pre, v, a) == cube_assign(pre, n.then_child, a).insert(
                        n.level,
                        true,
                    ));
                } else {
                    assert(cube_assign(post, v, a) == cube_assign(post, n.else_child, a).insert(
                        n.level,
                        false,
                    ));
                    assert(cube_assign(pre, v, a) == cube_assign(pre, n.else_child, a).insert(
                        n.level,
                        false,
                    ));
                }
            }
        }
    }
}

/// Appending nodes changes no quantification.
pub proof fn lemma_quant_eval_extend(
    pre: Seq<BddNode>,
    post: Seq<BddNode>,
    op: BinOp,
    f: Edge,
    v: Edge,
)
    requires
        nodes_wf(pre),
        nodes_wf(post),
        pre.is_prefix_of(post),
        edge_valid(pre, f),
        edge_valid(pre, v),
    ensures
        forall|a: Map<u32, bool>| #[trigger] quant_eval(post, op, f, v, a) == quant_eval(
            pre,
            op,
            f,
            v,
            a,
        ),
    decreases edge_rank(v),
{
    match v {
        Edge::Terminal(_) => {
            lemma_evals_extend(pre, post, f);
            assert forall|a: Map<u32, bool>| #[trigger] quant_eval(post, op, f, v, a)
                == quant_eval(pre, op, f, v, a) by {
                assert(quant_eval(post, op, f, v, a) == evals(post, f, a));
                assert(quant_eval(pre, op, f, v, a) == evals(pre, f, a));
            }
        }
        Edge::Inner(i) => {
            assert(node_wf(pre, i as int));
            assert(post[i as int] == pre[i as int]);
            let n = pre[i as int];
            lemma_quant_eval_extend(pre, post, op, f, n.then_child);
            assert forall|a: Map<u32, bool>| #[trigger] quant_eval(post, op, f, v, a)
                == quant_eval(pre, op, f, v, a) by {
                assert(quant_eval(post, op, f, v, a) == bin_apply(
                    op,
                    quant_eval(post, op, f, n.then_child, a.insert(n.level, true)),
                    quant_eval(post, op, f, n.then_child, a.insert(n.level, false)),
                ));
                assert(quant_eval(pre, op, f, v, a) == bin_apply(
                    op,
                    quant_eval(pre, op, f, n.then_child, a.insert(n.level, true)),
                    quant_eval(pre, op, f, n.then_child, a.insert(n.level, false)),
                ));
            }
        }
    }
}

/// Appending nodes changes no substituted assignment.
pub proof fn lemma_subst_lift_extend(pre: Seq<BddNode>, post: Seq<BddNode>, reps: Seq<Edge>)
    requires
        nodes_wf(pre),
        nodes_wf(post),
        pre.is_prefix_of(post),
        forall|k: int| 0 <= k < reps.len() ==> edge_valid(pre, #[trigger] reps[k]),
    ensures
        forall|a: Map<u32, bool>| #[trigger] subst_lift(post, reps, a) == subst_lift(pre, reps, a),
{
    assert forall|a: Map<u32, bool>| #[trigger] subst_lift(post, reps, a) == subst_lift(
        pre,
        reps,
        a,
    ) by {
        assert forall|l: u32| #[trigger] subst_lift(post, reps, a)[l] == subst_lift(pre, reps, a)[l]
        by {
            if (l as int) < reps.len() {
                lemma_evals_extend(pre, post, reps[l as int]);
            }
        }
        assert(subst_lift(post, reps, a) =~= subst_lift(pre, reps, a));
    }
}

/// A cube touches the assignment only at its own levels, all of which lie at
/// or below the cube's top level in the order.
pub proof fn lemma_cube_assign_below(nodes: Seq<BddNode>, v: Edge, a: Map<u32, bool>, l: u32)
    requires
        nodes_wf(nodes),
        edge_valid(nodes, v),
        (l as int) < edge_level(nodes, v),
    ensures
        cube_assign(nodes, v, a)[l] == a[l],
    decreases edge_rank(v),
{
    match v {
        Edge::Terminal(_) => {}
        Edge::Inner(i) => {
            assert(node_wf(nodes, i as int));
            let n = nodes[i as int];
            if n.else_child == Edge::Terminal(false) {
                lemma_cube_assign_below(nodes, n.then_child, a, l);
            } else {
                lemma_cube_assign_below(nodes, n.else_child, a, l);
            }
        }
    }
}

/// Quantification reads the assignment only at levels numerically at or
/// above `bound`, provided both the function and the variable set lie there.
pub proof fn lemma_quant_eval_agree(
    nodes: Seq<BddNode>,
    op: BinOp,
    f: Edge,
    v: Edge,
    a1: Map<u32, bool>,
    a2: Map<u32, bool>,
    bound: int,
)
    requires
        nodes_wf(nodes),
        edge_valid(nodes, f),
        edge_valid(nodes, v),
        edge_level(nodes, f) >= bound,
        edge_level(nodes, v) >= bound,
        forall|l: u32| l as int >= bound ==> a1[l] == a2[l],
    ensures
        quant_eval(nodes, op, f, v, a1) == quant_eval(nodes, op, f, v, a2),
    decreases edge_rank(v),
{
    match v {
        Edge::Terminal(_) => {
            lemma_evals_agree(nodes, f, a1, a2, bound);
        }
        Edge::Inner(i) => {
            assert(node_wf(nodes, i as int));
            let n = nodes[i as int];
            lemma_quant_eval_agree(
                nodes,
                op,
                f,
                n.then_child,
                a1.insert(n.level, true),
                a2.insert(n.level, true),
                bound,
            );
            lemma_quant_eval_agree(
                nodes,
                op,
                f,
                n.then_child,
                a1.insert(n.level, false),
                a2.insert(n.level, false),
                bound,
            );
        }
    }
}

/// Quantifying a constant: `And` and `Or` leave it unchanged; `Xor` over a
/// non-empty variable set collapses it to `false`.
pub proof fn lemma_quant_eval_const(nodes: Seq<BddNode>, op: BinOp, b: bool, v: Edge, a: Map<u32, bool>)
    requires
        nodes_wf(nodes),
        edge_valid(nodes, v),
        op == BinOp::And || op == BinOp::Or || op == BinOp::Xor,
    ensures
        quant_eval(nodes, op, Edge::Terminal(b), v, a) == (match v {
            Edge::Terminal(_) => b,
            Edge::Inner(_) => if op == BinOp::Xor {
                false
            } else {
                b
            },
        }),
    decreases edge_rank(v),
{
    match v {
        Edge::Terminal(_) => {}
        Edge::Inner(i) => {
            assert(node_wf(nodes, i as int));
            let n = nodes[i as int];
            lemma_quant_eval_const(nodes, op, b, n.then_child, a.insert(n.level, true));
            lemma_quant_eval_const(nodes, op, b, n.then_child, a.insert(n.level, false));
        }
    }
}

/// Cofactor expansion commutes with quantification over variables that all
/// lie strictly below the pivot level.
pub proof fn lemma_quant_eval_cofactor(
    nodes: Seq<BddNode>,
    op: BinOp,
    i: usize,
    v: Edge,
    a: Map<u32, bool>,
)
    requires
        nodes_wf(nodes),
        i < nodes.len(),
        edge_valid(nodes, v),
        edge_level(nodes, v) > nodes[i as int].level,
    ensures
        quant_eval(nodes, op, Edge::Inner(i), v, a) == if a[nodes[i as int].level] {
            quant_eval(nodes, op, nodes[i as int].then_child, v, a)
        } else {
            quant_eval(nodes, op, nodes[i as int].else_child, v, a)
        },
    decreases edge_rank(v),
{
    assert(node_wf(nodes, i as int));
    let f = Edge::Inner(i);
    let n = nodes[i as int];
    match v {
        Edge::Terminal(_) => {}
        Edge::Inner(vi) => {
            assert(node_wf(nodes, vi as int));
            let vn = nodes[vi as int];
            let at = a.insert(vn.level, true);
            let ae = a.insert(vn.level, false);
            lemma_quant_eval_cofactor(nodes, op, i, vn.then_child, at);
            lemma_quant_eval_cofactor(nodes, op, i, vn.then_child, ae);
            assert(at[n.level] == a[n.level]);
            assert(ae[n.level] == a[n.level]);
        }
    }
}

/// Quantifying over a variable that lies strictly above the function's top
/// level: for `And` and `Or` the variable can simply be dropped, for `Xor`
/// the result collapses to `false` (the two equal cofactors cancel).
pub proof fn lemma_quant_eval_drop_top(
    nodes: Seq<BddNode>,
    op: BinOp,
    f: Edge,
    vi: usize,
    a: Map<u32, bool>,
)
    requires
        nodes_wf(nodes),
        edge_valid(nodes, f),
        vi < nodes.len(),
        edge_level(nodes, f) > nodes[vi as int].level,
        op == BinOp::And || op == BinOp::Or || op == BinOp::Xor,
    ensures
        op != BinOp::Xor ==> quant_eval(nodes, op, f, Edge::Inner(vi), a) == quant_eval(
            nodes,
            op,
            f,
            nodes[vi as int].then_child,
            a,
        ),
        op == BinOp::Xor ==> quant_eval(nodes, op, f, Edge::Inner(vi), a) == false,
{
    assert(node_wf(nodes, vi as int));
    let vn = nodes[vi as int];
    let at = a.insert(vn.level, true);
    let ae = a.insert(vn.level, false);
    lemma_quant_eval_agree(nodes, op, f, vn.then_child, at, a, vn.level as int + 1);
    lemma_quant_eval_agree(nodes, op, f, vn.then_child, ae, a, vn.level as int + 1);
}

/// The satisfaction count never exceeds the number of assignments of the
/// remaining levels.
pub proof fn lemma_count_sat_bound(nodes: Seq<BddNode>, e: Edge, lvl: int, nvars: int)
    requires
        nodes_wf(nodes),
        edge_valid(nodes, e),
        levels_below(nodes, nvars),
        lvl <= nvars,
        lvl <= edge_level(nodes, e),
    ensures
        count_sat(nodes, e, lvl, nvars) <= vstd::arithmetic::power2::pow2((nvars - lvl) as nat),
    decreases nvars - lvl,
{
    match e {
        Edge::Terminal(_) => {}
        Edge::Inner(i) => {
            assert(node_wf(nodes, i as int));
            let n = nodes[i as int];
            vstd::arithmetic::power2::lemma_pow2_unfold((nvars - lvl) as nat);
            if n.level == lvl {
                lemma_count_sat_bound(nodes, n.then_child, lvl + 1, nvars);
                lemma_count_sat_bound(nodes, n.else_child, lvl + 1, nvars);
            } else {
                lemma_count_sat_bound(nodes, e, lvl + 1, nvars);
            }
        }
    }
}

/// The cofactor is a valid edge, stands strictly below the pivot level, and
/// never ranks above the edge it came from.
pub proof fn lemma_cofactor_wf(nodes: Seq<BddNode>, e: Edge, lvl: int, b: bool)
    requires
        nodes_wf(nodes),
        edge_valid(nodes, e),
        lvl <= edge_level(nodes, e),
        lvl < terminal_level(),
    ensures
        edge_valid(nodes, cofactor(nodes, e, lvl, b)),
        edge_level(nodes, cofactor(nodes, e, lvl, b)) >= lvl + 1,
        edge_rank(cofactor(nodes, e, lvl, b)) <= edge_rank(e),
{
    match e {
        Edge::Terminal(_) => {}
        Edge::Inner(i) => {
            assert(node_wf(nodes, i as int));
        }
    }
}

/// Evaluating the cofactor is evaluating the edge with the pivot level
/// fixed.
pub proof fn lemma_cofactor_eval(nodes: Seq<BddNode>, e: Edge, lvl: u32, b: bool, a: Map<u32, bool>)
    requires
        nodes_wf(nodes),
        edge_valid(nodes, e),
        lvl as int <= edge_level(nodes, e),
    ensures
        evals(nodes, cofactor(nodes, e, lvl as int, b), a) == evals(nodes, e, a.insert(lvl, b)),
{
    match e {
        Edge::Terminal(_) => {}
        Edge::Inner(i) => {
            assert(node_wf(nodes, i as int));
            let n = nodes[i as int];
            if n.level == lvl {
                let child = if b {
                    n.then_child
                } else {
                    n.else_child
                };
                lemma_evals_agree(nodes, child, a.insert(lvl, b), a, lvl as int + 1);
            } else {
                lemma_evals_agree(nodes, e, a.insert(lvl, b), a, lvl as int + 1);
            }
        }
    }
}

/// One counting step: the count at a level is the sum of the counts of the
/// two cofactors one level further down.
pub proof fn lemma_count_sat_step(nodes: Seq<BddNode>, e: Edge, lvl: int, nvars: int)
    requires
        nodes_wf(nodes),
        edge_valid(nodes, e),
        levels_below(nodes, nvars),
        lvl < nvars,
        nvars <= terminal_level(),
        lvl <= edge_level(nodes, e),
    ensures
        count_sat(nodes, e, lvl, nvars) == count_sat(nodes, cofactor(nodes, e, lvl, true), lvl + 1, nvars)
            + count_sat(nodes, cofactor(nodes, e, lvl, false), lvl + 1, nvars),
{
    lemma_cofactor_wf(nodes, e, lvl, true);
    lemma_cofactor_wf(nodes, e, lvl, false);
    match e {
        Edge::Terminal(_) => {
            vstd::arithmetic::power2::lemma_pow2_unfold((nvars - lvl) as nat);
        }
        Edge::Inner(i) => {
            assert(node_wf(nodes, i as int));
            if nodes[i as int].level != lvl {
                vstd::arithmetic::power2::lemma_pow2_unfold((nvars - lvl) as nat);
            }
        }
    }
}

/// Counting from an earlier level scales the count by one factor of two per
/// level skipped: none of them is tested by the edge.
pub proof fn lemma_count_sat_scale(nodes: Seq<BddNode>, e: Edge, lvl1: int, lvl2: int, nvars: int)
    requires
        nodes_wf(nodes),
        edge_valid(nodes, e),
        levels_below(nodes, nvars),
        lvl1 <= lvl2,
        lvl2 <= edge_level(nodes, e),
        lvl2 <= nvars,
    ensures
        count_sat(nodes, e, lvl1, nvars) == vstd::arithmetic::power2::pow2((lvl2 - lvl1) as nat)
            * count_sat(nodes, e, lvl2, nvars),
    decreases lvl2 - lvl1,
{
    if lvl1 == lvl2 {
        vstd::arithmetic::power2::lemma2_to64();
        assert(vstd::arithmetic::power2::pow2((lvl2 - lvl1) as nat) == 1);
        assert(count_sat(nodes, e, lvl1, nvars) == 1 * count_sat(nodes, e, lvl2, nvars));
    } else {
        lemma_count_sat_scale(nodes, e, lvl1 + 1, lvl2, nvars);
        let c2 = count_sat(nodes, e, lvl2, nvars);
        let c1 = count_sat(nodes, e, lvl1 + 1, nvars);
        let p = vstd::arithmetic::power2::pow2((lvl2 - lvl1 - 1) as nat);
        match e {
            Edge::Terminal(_) => {
                vstd::arithmetic::power2::lemma_pow2_unfold((nvars - lvl1) as nat);
            }
            Edge::Inner(i) => {
                assert(node_wf(nodes, i as int));
            }
        }
        assert(count_sat(nodes, e, lvl1, nvars) == 2 * c1);
        assert(c1 == p * c2);
        vstd::arithmetic::power2::lemma_pow2_unfold((lvl2 - lvl1) as nat);
        assert(vstd::arithmetic::power2::pow2((lvl2 - lvl1) as nat) == 2 * p);
        assert(2 * (p * c2) == (2 * p) * c2) by {
            vstd::arithmetic::mul::lemma_mul_is_associative(2, p as int, c2 as int);
        }
        assert(count_sat(nodes, e, lvl1, nvars) == vstd::arithmetic::power2::pow2(
            (lvl2 - lvl1) as nat,
        ) * c2);
    }
}

/// Complementary functions split the assignment space: their counts sum to
/// the number of assignments of the remaining levels.
pub proof fn lemma_count_sat_complement(
    nodes: Seq<BddNode>,
    e1: Edge,
    e2: Edge,
    lvl: int,
    nvars: int,
)
    requires
        nodes_wf(nodes),
        edge_valid(nodes, e1),
        edge_valid(nodes, e2),
        levels_below(nodes, nvars),
        0 <= lvl <= nvars,
        nvars <= terminal_level(),
        lvl <= edge_level(nodes, e1),
        lvl <= edge_level(nodes, e2),
        forall|a: Map<u32, bool>| #[trigger] evals(nodes, e1, a) == !evals(nodes, e2, a),
    ensures
        count_sat(nodes, e1, lvl, nvars) + count_sat(nodes, e2, lvl, nvars)
            == vstd::arithmetic::power2::pow2((nvars - lvl) as nat),
    decreases nvars - lvl,
{
    if lvl == nvars {
        match e1 {
            Edge::Terminal(_) => {}
            Edge::Inner(i) => {
                assert(node_wf(nodes, i as int));
                assert(nodes[i as int].level < nvars);
                assert(false);
            }
        }
        match e2 {
            Edge::Terminal(_) => {}
            Edge::Inner(i) => {
                assert(node_wf(nodes, i as int));
                assert(nodes[i as int].level < nvars);
                assert(false);
            }
        }
        assert(evals(nodes, e1, all_false()) == !evals(nodes, e2, all_false()));
    } else {
        let lu = lvl as u32;
        let c1t = cofactor(nodes, e1, lvl, true);
        let c1e = cofactor(nodes, e1, lvl, false);
        let c2t = cofactor(nodes, e2, lvl, true);
        let c2e = cofactor(nodes, e2, lvl, false);
        lemma_cofactor_wf(nodes, e1, lvl, true);
        lemma_cofactor_wf(nodes, e1, lvl, false);
        lemma_cofactor_wf(nodes, e2, lvl, true);
        lemma_cofactor_wf(nodes, e2, lvl, false);
        assert forall|a: Map<u32, bool>| #[trigger] evals(nodes, c1t, a) == !evals(nodes, c2t, a) by {
            lemma_cofactor_eval(nodes, e1, lu, true, a);
            lemma_cofactor_eval(nodes, e2, lu, true, a);
            assert(evals(nodes, e1, a.insert(lu, true)) == !evals(nodes, e2, a.insert(lu, true)));
        }
        assert forall|a: Map<u32, bool>| #[trigger] evals(nodes, c1e, a) == !evals(nodes, c2e, a) by {
            lemma_cofactor_eval(nodes, e1, lu, false, a);
            lemma_cofactor_eval(nodes, e2, lu, false, a);
            assert(evals(nodes, e1, a.insert(lu, false)) == !evals(nodes, e2, a.insert(lu, false)));
        }
        lemma_count_sat_complement(nodes, c1t, c2t, lvl + 1, nvars);
        lemma_count_sat_complement(nodes, c1e, c2e, lvl + 1, nvars);
        lemma_count_sat_step(nodes, e1, lvl, nvars);
        lemma_count_sat_step(nodes, e2, lvl, nvars);
        vstd::arithmetic::power2::lemma_pow2_unfold((nvars - lvl) as nat);
    }
}

/// Canonical form: on a well-formed, canonical store, edges with the same
/// denotation are the same edge.
pub proof fn lemma_canonical(nodes: Seq<BddNode>, e1: Edge, e2: Edge)
    requires
        nodes_wf(nodes),
        nodes_unique(nodes),
        edge_valid(nodes, e1),
        edge_valid(nodes, e2),
        forall|a: Map<u32, bool>| #[trigger] evals(nodes, e1, a) == evals(nodes, e2, a),
    ensures
        e1 == e2,
{
    if e1 != e2 {
        let a = lemma_distinct_edges(nodes, e1, e2);
        assert(evals(nodes, e1, a) == evals(nodes, e2, a));
    }
}

} // verus!
