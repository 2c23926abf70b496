//! The laws of the engine, each proved from the operation contracts and the
//! canonical-form theorem.
//!
//! Every operation's contract pins the denotation of its result; the
//! canonical-form theorem says that on a well-formed manager a denotation
//! determines the edge. Together they give the algebraic identities below as
//! identities of node identity, exactly as the reduced ordered
//! representation promises.

use vstd::prelude::*;
use crate::types::{BddNode, Edge};
use crate::manager::{reps_valid, Manager};
use crate::semantics::{
    all_false, cofactor, count_sat, cube_assign, edge_level, edge_rank, edge_valid, evals,
    lemma_canonical, lemma_cofactor_wf, lemma_count_sat_complement, lemma_count_sat_step,
    lemma_distinct_edges, lemma_evals_agree, lemma_evals_extend, levels_below, node_wf,
    nodes_unique, nodes_wf, occurs, quant_eval, subst_lift, terminal_level,
};

verus! {

/// The function at level `l` flips somewhere: some assignment changes the
/// edge's value when the value at `l` changes.
pub open spec fn depends_on(nodes: Seq<BddNode>, e: Edge, l: u32) -> bool {
    exists|a: Map<u32, bool>|
        #[trigger] evals(nodes, e, a.insert(l, true)) != evals(nodes, e, a.insert(l, false))
}

/// Strict level order: both children of every node stand strictly below it
/// in the order, or are terminals (whose sentinel level lies below
/// everything).
pub proof fn lemma_strict_level_order(m: Manager, i: int)
    requires
        m.inv(),
        0 <= i < m.nodes().len(),
    ensures
        edge_level(m.nodes(), m.nodes()[i].then_child) > m.nodes()[i].level,
        edge_level(m.nodes(), m.nodes()[i].else_child) > m.nodes()[i].level,
{
    assert(node_wf(m.nodes(), i));
}

/// No redundant node: the two children of every node differ.
pub proof fn lemma_no_redundant_node(m: Manager, i: int)
    requires
        m.inv(),
        0 <= i < m.nodes().len(),
    ensures
        m.nodes()[i].then_child != m.nodes()[i].else_child,
{
    assert(node_wf(m.nodes(), i));
}

/// Strong canonicalization on a manager: two edges denoting the same
/// function are the same edge.
pub proof fn lemma_canonical_manager(m: Manager, e1: Edge, e2: Edge)
    requires
        m.inv(),
        edge_valid(m.nodes(), e1),
        edge_valid(m.nodes(), e2),
        forall|a: Map<u32, bool>| #[trigger] evals(m.nodes(), e1, a) == evals(m.nodes(), e2, a),
    ensures
        e1 == e2,
{
    lemma_canonical(m.nodes(), e1, e2);
}

/// Results are insensitive to the apply cache: whatever was computed and
/// memoized in between, two edges of equal denotation — one from before the
/// manager grew, one from after — are the same edge.
pub proof fn lemma_result_determined(pre: Manager, post: Manager, r1: Edge, r2: Edge)
    requires
        pre.inv(),
        post.inv(),
        post.extends(pre),
        edge_valid(pre.nodes(), r1),
        edge_valid(post.nodes(), r2),
        forall|a: Map<u32, bool>| #[trigger] evals(pre.nodes(), r1, a) == evals(post.nodes(), r2, a),
    ensures
        r1 == r2,
{
    lemma_evals_extend(pre.nodes(), post.nodes(), r1);
    lemma_canonical(post.nodes(), r1, r2);
}

/// Double negation is the identity: if `g` denotes the negation of `f` and
/// `r` the negation of `g`, then `r` is `f` itself.
pub proof fn lemma_not_involution(m: Manager, f: Edge, g: Edge, r: Edge)
    requires
        m.inv(),
        edge_valid(m.nodes(), f),
        edge_valid(m.nodes(), g),
        edge_valid(m.nodes(), r),
        forall|a: Map<u32, bool>| #[trigger] evals(m.nodes(), g, a) == !evals(m.nodes(), f, a),
        forall|a: Map<u32, bool>| #[trigger] evals(m.nodes(), r, a) == !evals(m.nodes(), g, a),
    ensures
        r == f,
{
    lemma_canonical(m.nodes(), r, f);
}

/// Conjunction is idempotent: the conjunction of `f` with itself is `f`.
pub proof fn lemma_and_idempotent(m: Manager, f: Edge, r: Edge)
    requires
        m.inv(),
        edge_valid(m.nodes(), f),
        edge_valid(m.nodes(), r),
        forall|a: Map<u32, bool>| #[trigger] evals(m.nodes(), r, a) == (evals(m.nodes(), f, a)
            && evals(m.nodes(), f, a)),
    ensures
        r == f,
{
    lemma_canonical(m.nodes(), r, f);
}

/// Disjunction is idempotent: the disjunction of `f` with itself is `f`.
pub proof fn lemma_or_idempotent(m: Manager, f: Edge, r: Edge)
    requires
        m.inv(),
        edge_valid(m.nodes(), f),
        edge_valid(m.nodes(), r),
        forall|a: Map<u32, bool>| #[trigger] evals(m.nodes(), r, a) == (evals(m.nodes(), f, a)
            || evals(m.nodes(), f, a)),
    ensures
        r == f,
{
    lemma_canonical(m.nodes(), r, f);
}

/// Exclusive disjunction cancels: `f` xor `f` is the `false` terminal.
pub proof fn lemma_xor_self(m: Manager, f: Edge, r: Edge)
    requires
        m.inv(),
        edge_valid(m.nodes(), f),
        edge_valid(m.nodes(), r),
        forall|a: Map<u32, bool>| #[trigger] evals(m.nodes(), r, a) == (evals(m.nodes(), f, a)
            != evals(m.nodes(), f, a)),
    ensures
        r == Edge::Terminal(false),
{
    lemma_canonical(m.nodes(), r, Edge::Terminal(false));
}

/// De Morgan: the conjunction of `f` and `g` is the negation of the
/// disjunction of their negations, as one edge.
pub proof fn lemma_de_morgan(m: Manager, f: Edge, g: Edge, lhs: Edge, rhs: Edge)
    requires
        m.inv(),
        edge_valid(m.nodes(), f),
        edge_valid(m.nodes(), g),
        edge_valid(m.nodes(), lhs),
        edge_valid(m.nodes(), rhs),
        forall|a: Map<u32, bool>| #[trigger] evals(m.nodes(), lhs, a) == (evals(m.nodes(), f, a)
            && evals(m.nodes(), g, a)),
        forall|a: Map<u32, bool>| #[trigger] evals(m.nodes(), rhs, a) == !((!evals(m.nodes(), f, a))
            || (!evals(m.nodes(), g, a))),
    ensures
        lhs == rhs,
{
    lemma_canonical(m.nodes(), lhs, rhs);
}

/// Equivalence is negated exclusive disjunction, as one edge.
pub proof fn lemma_equiv_is_not_xor(m: Manager, f: Edge, g: Edge, lhs: Edge, rhs: Edge)
    requires
        m.inv(),
        edge_valid(m.nodes(), f),
        edge_valid(m.nodes(), g),
        edge_valid(m.nodes(), lhs),
        edge_valid(m.nodes(), rhs),
        forall|a: Map<u32, bool>| #[trigger] evals(m.nodes(), lhs, a) == (evals(m.nodes(), f, a)
            == evals(m.nodes(), g, a)),
        forall|a: Map<u32, bool>| #[trigger] evals(m.nodes(), rhs, a) == !(evals(m.nodes(), f, a)
            != evals(m.nodes(), g, a)),
    ensures
        lhs == rhs,
{
    lemma_canonical(m.nodes(), lhs, rhs);
}

/// If-then-else decomposes into the two-branch disjunction
/// `(f and g) or (not f and h)`, as one edge.
pub proof fn lemma_ite_decomposition(m: Manager, f: Edge, g: Edge, h: Edge, lhs: Edge, rhs: Edge)
    requires
        m.inv(),
        edge_valid(m.nodes(), f),
        edge_valid(m.nodes(), g),
        edge_valid(m.nodes(), h),
        edge_valid(m.nodes(), lhs),
        edge_valid(m.nodes(), rhs),
        forall|a: Map<u32, bool>| #[trigger] evals(m.nodes(), lhs, a) == if evals(m.nodes(), f, a) {
            evals(m.nodes(), g, a)
        } else {
            evals(m.nodes(), h, a)
        },
        forall|a: Map<u32, bool>| #[trigger] evals(m.nodes(), rhs, a) == ((evals(m.nodes(), f, a)
            && evals(m.nodes(), g, a)) || ((!evals(m.nodes(), f, a)) && evals(m.nodes(), h, a))),
    ensures
        lhs == rhs,
{
    lemma_canonical(m.nodes(), lhs, rhs);
}

/// Evaluation is consistent with if-then-else: under any assignment, the
/// value of `ite(f, g, h)` is the value of `g` or of `h` according to the
/// value of `f`.
pub proof fn lemma_eval_consistency(
    m: Manager,
    f: Edge,
    g: Edge,
    h: Edge,
    r: Edge,
    a: Map<u32, bool>,
)
    requires
        m.inv(),
        edge_valid(m.nodes(), f),
        edge_valid(m.nodes(), g),
        edge_valid(m.nodes(), h),
        edge_valid(m.nodes(), r),
        forall|b: Map<u32, bool>| #[trigger] evals(m.nodes(), r, b) == if evals(m.nodes(), f, b) {
            evals(m.nodes(), g, b)
        } else {
            evals(m.nodes(), h, b)
        },
    ensures
        evals(m.nodes(), r, a) == if evals(m.nodes(), f, a) {
            evals(m.nodes(), g, a)
        } else {
            evals(m.nodes(), h, a)
        },
{
}

/// The counts of the two terminals: every assignment satisfies the `true`
/// terminal, none the `false` one.
pub proof fn lemma_sat_count_terminals(m: Manager, nvars: int)
    requires
        m.inv(),
        m.levels <= nvars,
    ensures
        crate::semantics::count_sat(m.nodes(), Edge::Terminal(true), 0, nvars)
            == vstd::arithmetic::power2::pow2(nvars as nat),
        crate::semantics::count_sat(m.nodes(), Edge::Terminal(false), 0, nvars) == 0,
{
}

/// Complement rule of counting: the counts of a function and of its
/// negation sum to the count of the `true` terminal.
pub proof fn lemma_sat_count_not(m: Manager, f: Edge, r: Edge, nvars: int)
    requires
        m.inv(),
        edge_valid(m.nodes(), f),
        edge_valid(m.nodes(), r),
        m.levels <= nvars,
        nvars <= terminal_level(),
        forall|a: Map<u32, bool>| #[trigger] evals(m.nodes(), r, a) == !evals(m.nodes(), f, a),
    ensures
        crate::semantics::count_sat(m.nodes(), f, 0, nvars) + crate::semantics::count_sat(
            m.nodes(),
            r,
            0,
            nvars,
        ) == vstd::arithmetic::power2::pow2(nvars as nat),
{
    lemma_count_sat_complement(m.nodes(), f, r, 0, nvars);
}

/// The assignment a sequence of variable values describes: level `l` reads
/// `s[l]`, levels beyond the sequence read `false`.
pub open spec fn seq_assign(s: Seq<bool>) -> Map<u32, bool> {
    Map::total(
        |l: u32|
            if (l as int) < s.len() {
                s[l as int]
            } else {
                false
            },
    )
}

/// The satisfying assignments of `e` over the levels from `p.len()` up to
/// `nvars`, each given as the sequence of those levels' values, on top of
/// the fixed values `p` of the levels below.
pub open spec fn sat_seqs(nodes: Seq<BddNode>, e: Edge, p: Seq<bool>, nvars: int) -> Set<
    Seq<bool>,
> {
    Set::new(|s: Seq<bool>| s.len() == nvars - p.len() && evals(nodes, e, seq_assign(p + s)))
}

/// Fixing the next level's value moves the evaluation to the matching
/// cofactor.
proof fn lemma_sat_seqs_bit(
    nodes: Seq<BddNode>,
    e: Edge,
    p: Seq<bool>,
    nvars: int,
    b: bool,
    s: Seq<bool>,
)
    requires
        nodes_wf(nodes),
        edge_valid(nodes, e),
        p.len() < nvars,
        nvars <= terminal_level(),
        p.len() <= edge_level(nodes, e),
    ensures
        evals(nodes, e, seq_assign(p + (seq![b] + s))) == evals(
            nodes,
            cofactor(nodes, e, p.len() as int, b),
            seq_assign(p.push(b) + s),
        ),
{
    let lvl = p.len() as int;
    assert(p + (seq![b] + s) =~= p.push(b) + s);
    let a = seq_assign(p.push(b) + s);
    assert(a[lvl as u32] == b);
    match e {
        Edge::Terminal(_) => {}
        Edge::Inner(i) => {
            assert(node_wf(nodes, i as int));
        }
    }
}

/// The counting model counts assignments: `sat_seqs` is finite and its
/// cardinality is `count_sat`, level by level.
proof fn lemma_sat_seqs_count(nodes: Seq<BddNode>, e: Edge, p: Seq<bool>, nvars: int)
    requires
        nodes_wf(nodes),
        edge_valid(nodes, e),
        levels_below(nodes, nvars),
        p.len() <= nvars,
        nvars <= terminal_level(),
        p.len() <= edge_level(nodes, e),
    ensures
        sat_seqs(nodes, e, p, nvars).finite(),
        sat_seqs(nodes, e, p, nvars).len() == count_sat(nodes, e, p.len() as int, nvars),
    decreases nvars - p.len(),
{
    let lvl = p.len() as int;
    let s_all = sat_seqs(nodes, e, p, nvars);
    if lvl == nvars {
        match e {
            Edge::Inner(i) => {
                assert(node_wf(nodes, i as int));
                assert(nodes[i as int].level < nvars);
                assert(false);
            },
            Edge::Terminal(b) => {
                if b {
                    assert forall|s: Seq<bool>| s_all.contains(s) implies Set::empty().insert(
                        Seq::<bool>::empty(),
                    ).contains(s) by {
                        assert(s =~= Seq::<bool>::empty());
                    }
                    assert(s_all.contains(Seq::<bool>::empty()));
                    assert(s_all =~= Set::empty().insert(Seq::<bool>::empty()));
                    assert(s_all.len() == 1);
                    vstd::arithmetic::power2::lemma2_to64();
                } else {
                    assert(s_all =~= Set::<Seq<bool>>::empty());
                }
            },
        }
    } else {
        let ct = cofactor(nodes, e, lvl, true);
        let ce = cofactor(nodes, e, lvl, false);
        lemma_cofactor_wf(nodes, e, lvl, true);
        lemma_cofactor_wf(nodes, e, lvl, false);
        let pt = p.push(true);
        let pe = p.push(false);
        lemma_sat_seqs_count(nodes, ct, pt, nvars);
        lemma_sat_seqs_count(nodes, ce, pe, nvars);
        let st = sat_seqs(nodes, ct, pt, nvars);
        let se = sat_seqs(nodes, ce, pe, nvars);
        let ft = |s: Seq<bool>| seq![true] + s;
        let fe = |s: Seq<bool>| seq![false] + s;
        let part_t = Set::new(|s: Seq<bool>| s_all.contains(s) && 0 < s.len() && s[0] == true);
        let part_e = Set::new(|s: Seq<bool>| s_all.contains(s) && 0 < s.len() && s[0] == false);
        // the then-half of the split is the then-cofactor's set, shifted
        assert forall|t: Seq<bool>| #[trigger] st.map(ft).contains(t) implies part_t.contains(
            t,
        ) by {
            let s = choose|s: Seq<bool>| st.contains(s) && t == ft(s);
            lemma_sat_seqs_bit(nodes, e, p, nvars, true, s);
            assert(evals(nodes, e, seq_assign(p + t)) == evals(nodes, ct, seq_assign(pt + s)));
        }
        assert forall|t: Seq<bool>| part_t.contains(t) implies #[trigger] st.map(ft).contains(
            t,
        ) by {
            let s = t.subrange(1, t.len() as int);
            assert(ft(s) =~= t);
            lemma_sat_seqs_bit(nodes, e, p, nvars, true, s);
            assert(evals(nodes, e, seq_assign(p + t)) == evals(nodes, ct, seq_assign(pt + s)));
            assert(st.contains(s));
        }
        assert(st.map(ft) =~= part_t);
        assert forall|s1: Seq<bool>, s2: Seq<bool>|
            st.contains(s1) && st.contains(s2) && #[trigger] ft(s1) == #[trigger] ft(
                s2,
            ) implies s1 == s2 by {
            assert(s1 =~= ft(s1).subrange(1, ft(s1).len() as int));
            assert(s2 =~= ft(s2).subrange(1, ft(s2).len() as int));
        }
        assert(vstd::relations::injective_on(ft, st));
        vstd::set_lib::lemma_map_size(st, part_t, ft);
        // and the else-half likewise
        assert forall|t: Seq<bool>| #[trigger] se.map(fe).contains(t) implies part_e.contains(
            t,
        ) by {
            let s = choose|s: Seq<bool>| se.contains(s) && t == fe(s);
            lemma_sat_seqs_bit(nodes, e, p, nvars, false, s);
            assert(evals(nodes, e, seq_assign(p + t)) == evals(nodes, ce, seq_assign(pe + s)));
        }
        assert forall|t: Seq<bool>| part_e.contains(t) implies #[trigger] se.map(fe).contains(
            t,
        ) by {
            let s = t.subrange(1, t.len() as int);
            assert(fe(s) =~= t);
            lemma_sat_seqs_bit(nodes, e, p, nvars, false, s);
            assert(evals(nodes, e, seq_assign(p + t)) == evals(nodes, ce, seq_assign(pe + s)));
            assert(se.contains(s));
        }
        assert(se.map(fe) =~= part_e);
        assert forall|s1: Seq<bool>, s2: Seq<bool>|
            se.contains(s1) && se.contains(s2) && #[trigger] fe(s1) == #[trigger] fe(
                s2,
            ) implies s1 == s2 by {
            assert(s1 =~= fe(s1).subrange(1, fe(s1).len() as int));
            assert(s2 =~= fe(s2).subrange(1, fe(s2).len() as int));
        }
        assert(vstd::relations::injective_on(fe, se));
        vstd::set_lib::lemma_map_size(se, part_e, fe);
        // the two halves partition the set, and the counts add up
        assert forall|s: Seq<bool>| s_all.contains(s) implies #[trigger] (part_t + part_e).contains(
            s,
        ) by {
            assert(s.len() > 0);
        }
        assert(s_all =~= part_t + part_e);
        assert(part_t.disjoint(part_e));
        vstd::set_lib::lemma_set_disjoint_lens(part_t, part_e);
        lemma_count_sat_step(nodes, e, lvl, nvars);
    }
}

/// Counting is counting assignments: `count_sat` from the top level is the
/// number of sequences of `nvars` variable values under which the edge
/// evaluates to true.
pub proof fn lemma_sat_count_counts_assignments(m: Manager, f: Edge, nvars: int)
    requires
        m.inv(),
        edge_valid(m.nodes(), f),
        m.levels <= nvars,
        nvars <= terminal_level(),
    ensures
        sat_seqs(m.nodes(), f, Seq::empty(), nvars).finite(),
        sat_seqs(m.nodes(), f, Seq::empty(), nvars).len() == count_sat(m.nodes(), f, 0, nvars),
{
    lemma_sat_seqs_count(m.nodes(), f, Seq::empty(), nvars);
}

/// Quantifying a single variable universally is conjoining the two
/// restrictions: `forall(f, {x}) = and(restrict(f, x true), restrict(f, x
/// false))`, as one edge. `v` is the variable's own edge and `nv` the cube
/// of its negative literal.
pub proof fn lemma_forall_single_var(
    m: Manager,
    f: Edge,
    vi: usize,
    ni: usize,
    rf: Edge,
    rpos: Edge,
    rneg: Edge,
    rr: Edge,
)
    requires
        m.inv(),
        edge_valid(m.nodes(), f),
        vi < m.nodes().len(),
        ni < m.nodes().len(),
        m.nodes()[vi as int].then_child == Edge::Terminal(true),
        m.nodes()[vi as int].else_child == Edge::Terminal(false),
        m.nodes()[ni as int].then_child == Edge::Terminal(false),
        m.nodes()[ni as int].else_child == Edge::Terminal(true),
        m.nodes()[ni as int].level == m.nodes()[vi as int].level,
        edge_valid(m.nodes(), rf),
        edge_valid(m.nodes(), rpos),
        edge_valid(m.nodes(), rneg),
        edge_valid(m.nodes(), rr),
        forall|a: Map<u32, bool>| #[trigger] evals(m.nodes(), rf, a) == quant_eval(
            m.nodes(),
            crate::types::BinOp::And,
            f,
            Edge::Inner(vi),
            a,
        ),
        forall|a: Map<u32, bool>| #[trigger] evals(m.nodes(), rpos, a) == evals(
            m.nodes(),
            f,
            cube_assign(m.nodes(), Edge::Inner(vi), a),
        ),
        forall|a: Map<u32, bool>| #[trigger] evals(m.nodes(), rneg, a) == evals(
            m.nodes(),
            f,
            cube_assign(m.nodes(), Edge::Inner(ni), a),
        ),
        forall|a: Map<u32, bool>| #[trigger] evals(m.nodes(), rr, a) == (evals(m.nodes(), rpos, a)
            && evals(m.nodes(), rneg, a)),
    ensures
        rf == rr,
{
    let nodes = m.nodes();
    let lvl = nodes[vi as int].level;
    assert forall|a: Map<u32, bool>| #[trigger] evals(nodes, rf, a) == evals(nodes, rr, a) by {
        assert(cube_assign(nodes, Edge::Terminal(true), a) == a);
        assert(cube_assign(nodes, Edge::Inner(vi), a) == a.insert(lvl, true));
        assert(cube_assign(nodes, Edge::Inner(ni), a) == a.insert(lvl, false));
        assert(quant_eval(nodes, crate::types::BinOp::And, f, Edge::Inner(vi), a) == (quant_eval(
            nodes,
            crate::types::BinOp::And,
            f,
            Edge::Terminal(true),
            a.insert(lvl, true),
        ) && quant_eval(
            nodes,
            crate::types::BinOp::And,
            f,
            Edge::Terminal(true),
            a.insert(lvl, false),
        )));
    }
    lemma_canonical(nodes, rf, rr);
}

/// Assignments agreeing on every level that occurs in the diagram of an
/// edge evaluate it equally.
pub proof fn lemma_evals_occurs_agree(nodes: Seq<BddNode>, e: Edge, a1: Map<u32, bool>, a2: Map<u32, bool>)
    requires
        nodes_wf(nodes),
        edge_valid(nodes, e),
        forall|l: u32| #[trigger] occurs(nodes, e, l) ==> a1[l] == a2[l],
    ensures
        evals(nodes, e, a1) == evals(nodes, e, a2),
    decreases edge_rank(e),
{
    match e {
        Edge::Terminal(_) => {}
        Edge::Inner(i) => {
            assert(node_wf(nodes, i as int));
            let n = nodes[i as int];
            assert(occurs(nodes, e, n.level));
            assert forall|l: u32| #[trigger] occurs(nodes, n.then_child, l) implies a1[l] == a2[l] by {
                assert(occurs(nodes, e, l));
            }
            assert forall|l: u32| #[trigger] occurs(nodes, n.else_child, l) implies a1[l] == a2[l] by {
                assert(occurs(nodes, e, l));
            }
            lemma_evals_occurs_agree(nodes, n.then_child, a1, a2);
            lemma_evals_occurs_agree(nodes, n.else_child, a1, a2);
        }
    }
}

/// In a reduced ordered diagram, every level that occurs is depended on:
/// the returned assignment witnesses the dependence.
pub proof fn lemma_occurs_depends(nodes: Seq<BddNode>, e: Edge, l: u32) -> (a: Map<u32, bool>)
    requires
        nodes_wf(nodes),
        nodes_unique(nodes),
        edge_valid(nodes, e),
        occurs(nodes, e, l),
    ensures
        evals(nodes, e, a.insert(l, true)) != evals(nodes, e, a.insert(l, false)),
    decreases edge_rank(e),
{
    match e {
        Edge::Terminal(_) => {
            assert(false);
            all_false()
        },
        Edge::Inner(i) => {
            assert(node_wf(nodes, i as int));
            let n = nodes[i as int];
            if n.level == l {
                let a0 = lemma_distinct_edges(nodes, n.then_child, n.else_child);
                lemma_evals_agree(nodes, n.then_child, a0.insert(l, true), a0, l as int + 1);
                lemma_evals_agree(nodes, n.else_child, a0.insert(l, false), a0, l as int + 1);
                a0
            } else if occurs(nodes, n.then_child, l) {
                let a0 = lemma_occurs_depends(nodes, n.then_child, l);
                let a = a0.insert(n.level, true);
                lemma_evals_agree(
                    nodes,
                    n.then_child,
                    a.insert(l, true),
                    a0.insert(l, true),
                    n.level as int + 1,
                );
                lemma_evals_agree(
                    nodes,
                    n.then_child,
                    a.insert(l, false),
                    a0.insert(l, false),
                    n.level as int + 1,
                );
                assert(a.insert(l, true)[n.level] == true);
                assert(a.insert(l, false)[n.level] == true);
                a
            } else {
                assert(occurs(nodes, n.else_child, l));
                let a0 = lemma_occurs_depends(nodes, n.else_child, l);
                let a = a0.insert(n.level, false);
                lemma_evals_agree(
                    nodes,
                    n.else_child,
                    a.insert(l, true),
                    a0.insert(l, true),
                    n.level as int + 1,
                );
                lemma_evals_agree(
                    nodes,
                    n.else_child,
                    a.insert(l, false),
                    a0.insert(l, false),
                    n.level as int + 1,
                );
                assert(a.insert(l, true)[n.level] == false);
                assert(a.insert(l, false)[n.level] == false);
                a
            }
        },
    }
}

/// Substitution identity: a substitution that replaces no variable the
/// function depends on — every replacement of a depended-on level is that
/// variable itself — returns the very same edge.
pub proof fn lemma_substitution_identity(m: Manager, f: Edge, reps: Seq<Edge>, r: Edge)
    requires
        m.inv(),
        edge_valid(m.nodes(), f),
        edge_valid(m.nodes(), r),
        reps_valid(m.nodes(), reps),
        forall|a: Map<u32, bool>| #[trigger] evals(m.nodes(), r, a) == evals(
            m.nodes(),
            f,
            subst_lift(m.nodes(), reps, a),
        ),
        forall|l: u32|
            (l as int) < reps.len() && #[trigger] depends_on(m.nodes(), f, l) ==> forall|
                a: Map<u32, bool>,
            | #[trigger] evals(m.nodes(), reps[l as int], a) == a[l],
    ensures
        r == f,
{
    let nodes = m.nodes();
    assert forall|a: Map<u32, bool>| #[trigger] evals(nodes, r, a) == evals(nodes, f, a) by {
        let la = subst_lift(nodes, reps, a);
        assert forall|l: u32| #[trigger] occurs(nodes, f, l) implies la[l] == a[l] by {
            if (l as int) < reps.len() {
                let w = lemma_occurs_depends(nodes, f, l);
                assert(depends_on(nodes, f, l));
                assert(evals(nodes, reps[l as int], a) == a[l]);
            }
        }
        lemma_evals_occurs_agree(nodes, f, la, a);
    }
    lemma_canonical(nodes, r, f);
}

} // verus!
