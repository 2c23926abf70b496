//! The recursive apply algorithms for negation, the binary connectives and
//! if-then-else.
//!
//! Every operator follows one skeleton: a terminal short-circuit, a probe of
//! the apply cache, cofactor expansion at the topmost level of the operands,
//! two recursive calls, recombination through [`Manager::reduce`], and a
//! cache install. The contracts pin the denotation of the returned edge to
//! the Boolean combination of the operand denotations, so together with
//! [`crate::semantics::lemma_canonical`] the result edge is determined by
//! the operands alone.

use vstd::prelude::*;
use crate::types::{BinOp, CacheKey, Edge, OutOfMemory};
use crate::manager::{lemma_edge_preserved, lemma_extends_refl, lemma_extends_trans, min2, min3, Manager};
use crate::semantics::{bin_apply, edge_level, edge_rank, edge_valid, evals, node_wf};

verus! {

/// Outcome of the terminal short-circuit of a binary operator.
enum TermCase {
    /// The result is this edge, with no allocation.
    Done(Edge),
    /// The result is the negation of this edge.
    Flip(Edge),
    /// No short-circuit applies; both operands are the given inner nodes.
    Descend(usize, usize),
}

/// Whether the connective commutes, so that the cache key may sort the
/// operand pair.
fn is_commutative(op: BinOp) -> (r: bool)
    ensures
        r == crate::semantics::bin_commutative(op),
{
    match op {
        BinOp::And | BinOp::Or | BinOp::Nand | BinOp::Nor | BinOp::Xor | BinOp::Equiv => true,
        BinOp::Imp | BinOp::ImpStrict => false,
    }
}

/// The operator-specific terminal table: resolves `op` applied to `f` and
/// `g` without allocation when either operand is a terminal or the operands
/// coincide.
fn terminal_bin(manager: &Manager, op: BinOp, f: Edge, g: Edge) -> (r: TermCase)
    requires
        manager.inv(),
        edge_valid(manager.nodes(), f),
        edge_valid(manager.nodes(), g),
    ensures
        match r {
            TermCase::Done(h) => {
                &&& edge_valid(manager.nodes(), h)
                &&& edge_level(manager.nodes(), h) >= min2(
                    edge_level(manager.nodes(), f),
                    edge_level(manager.nodes(), g),
                )
                &&& forall|a: Map<u32, bool>| #[trigger] evals(manager.nodes(), h, a) == bin_apply(
                    op,
                    evals(manager.nodes(), f, a),
                    evals(manager.nodes(), g, a),
                )
            },
            TermCase::Flip(x) => {
                &&& edge_valid(manager.nodes(), x)
                &&& edge_level(manager.nodes(), x) >= min2(
                    edge_level(manager.nodes(), f),
                    edge_level(manager.nodes(), g),
                )
                &&& forall|a: Map<u32, bool>| !(#[trigger] evals(manager.nodes(), x, a))
                    == bin_apply(op, evals(manager.nodes(), f, a), evals(manager.nodes(), g, a))
            },
            TermCase::Descend(fi, gi) => f == Edge::Inner(fi) && g == Edge::Inner(gi),
        },
{
    if f == g {
        return match op {
            BinOp::And | BinOp::Or => TermCase::Done(f),
            BinOp::Nand | BinOp::Nor => TermCase::Flip(f),
            BinOp::Xor => TermCase::Done(Edge::Terminal(false)),
            BinOp::Equiv | BinOp::Imp => TermCase::Done(Edge::Terminal(true)),
            BinOp::ImpStrict => TermCase::Done(Edge::Terminal(false)),
        };
    }
    match f {
        Edge::Terminal(fb) => {
            if fb {
                match op {
                    BinOp::And => TermCase::Done(g),
                    BinOp::Or => TermCase::Done(Edge::Terminal(true)),
                    BinOp::Nand => TermCase::Flip(g),
                    BinOp::Nor => TermCase::Done(Edge::Terminal(false)),
                    BinOp::Xor => TermCase::Flip(g),
                    BinOp::Equiv => TermCase::Done(g),
                    BinOp::Imp => TermCase::Done(g),
                    BinOp::ImpStrict => TermCase::Done(Edge::Terminal(false)),
                }
            } else {
                match op {
                    BinOp::And => TermCase::Done(Edge::Terminal(false)),
                    BinOp::Or => TermCase::Done(g),
                    BinOp::Nand => TermCase::Done(Edge::Terminal(true)),
                    BinOp::Nor => TermCase::Flip(g),
                    BinOp::Xor => TermCase::Done(g),
                    BinOp::Equiv => TermCase::Flip(g),
                    BinOp::Imp => TermCase::Done(Edge::Terminal(true)),
                    BinOp::ImpStrict => TermCase::Done(g),
                }
            }
        },
        Edge::Inner(fi) => {
            match g {
                Edge::Terminal(gb) => {
                    if gb {
                        match op {
                            BinOp::And => TermCase::Done(f),
                            BinOp::Or => TermCase::Done(Edge::Terminal(true)),
                            BinOp::Nand => TermCase::Flip(f),
                            BinOp::Nor => TermCase::Done(Edge::Terminal(false)),
                            BinOp::Xor => TermCase::Flip(f),
                            BinOp::Equiv => TermCase::Done(f),
                            BinOp::Imp => TermCase::Done(Edge::Terminal(true)),
                            BinOp::ImpStrict => TermCase::Flip(f),
                        }
                    } else {
                        match op {
                            BinOp::And => TermCase::Done(Edge::Terminal(false)),
                            BinOp::Or => TermCase::Done(f),
                            BinOp::Nand => TermCase::Done(Edge::Terminal(true)),
                            BinOp::Nor => TermCase::Flip(f),
                            BinOp::Xor => TermCase::Done(f),
                            BinOp::Equiv => TermCase::Flip(f),
                            BinOp::Imp => TermCase::Flip(f),
                            BinOp::ImpStrict => TermCase::Done(Edge::Terminal(false)),
                        }
                    }
                },
                Edge::Inner(gi) => TermCase::Descend(fi, gi),
            }
        },
    }
}

/// Recursively apply negation to `f`.
pub fn apply_not(manager: &mut Manager, f: Edge) -> (r: Result<Edge, OutOfMemory>)
    requires
        old(manager).inv(),
        edge_valid(old(manager).nodes(), f),
    ensures
        final(manager).inv(),
        final(manager).extends(*old(manager)),
        final(manager).levels == old(manager).levels,
        match r {
            Ok(h) => {
                &&& edge_valid(final(manager).nodes(), h)
                &&& edge_level(final(manager).nodes(), h) >= edge_level(old(manager).nodes(), f)
                &&& forall|a: Map<u32, bool>| #[trigger] evals(final(manager).nodes(), h, a)
                    == !evals(old(manager).nodes(), f, a)
            },
            Err(_) => final(manager).nodes().len() == final(manager).store_cap,
        },
        // terminal short-circuit: negating a terminal always succeeds,
        // returns the opposite terminal, and touches nothing
        (f matches Edge::Terminal(b) ==> r == Ok::<Edge, OutOfMemory>(Edge::Terminal(!b))
            && *final(manager) == *old(manager)),
    decreases edge_rank(f),
{
    let ghost m0 = *manager;
    proof {
        lemma_extends_refl(m0);
    }
    let i = match f {
        Edge::Terminal(b) => {
            return Ok(Edge::Terminal(!b));
        },
        Edge::Inner(i) => i,
    };
    let key = CacheKey::Not(f);
    if let Some(h) = manager.cache_get(key) {
        return Ok(h);
    }
    let node = manager.node_at(i);
    proof {
        assert(node_wf(m0.nodes(), i as int));
    }
    let t = match apply_not(manager, node.then_child) {
        Ok(t) => t,
        Err(oom) => {
            return Err(oom);
        },
    };
    let ghost m1 = *manager;
    let e = match apply_not(manager, node.else_child) {
        Ok(e) => e,
        Err(oom) => {
            proof {
                lemma_extends_trans(m0, m1, *manager);
            }
            return Err(oom);
        },
    };
    let ghost m2 = *manager;
    proof {
        lemma_extends_trans(m0, m1, m2);
        lemma_edge_preserved(m1, m2, t);
        lemma_edge_preserved(m0, m1, node.else_child);
        assert(node.level < m2.levels);
    }
    let h = match manager.reduce(node.level, t, e) {
        Ok(h) => h,
        Err(oom) => {
            proof {
                lemma_extends_trans(m0, m2, *manager);
            }
            return Err(oom);
        },
    };
    let ghost m3 = *manager;
    proof {
        lemma_extends_trans(m0, m2, m3);
        lemma_edge_preserved(m0, m3, f);
        assert forall|a: Map<u32, bool>| #[trigger] evals(m3.nodes(), h, a) == !evals(
            m0.nodes(),
            f,
            a,
        ) by {
            assert(evals(m3.nodes(), h, a) == if a[node.level] {
                evals(m2.nodes(), t, a)
            } else {
                evals(m2.nodes(), e, a)
            });
            assert(evals(m2.nodes(), t, a) == evals(m1.nodes(), t, a));
            assert(evals(m1.nodes(), t, a) == !evals(m0.nodes(), node.then_child, a));
            assert(evals(m2.nodes(), e, a) == !evals(m1.nodes(), node.else_child, a));
            assert(evals(m1.nodes(), node.else_child, a) == evals(m0.nodes(), node.else_child, a));
            assert(evals(m0.nodes(), f, a) == if a[node.level] {
                evals(m0.nodes(), node.then_child, a)
            } else {
                evals(m0.nodes(), node.else_child, a)
            });
        }
        assert(crate::manager::entry_sound(
            m3.nodes(),
            m3.subst_log@,
            crate::types::CacheEntry { key, res: h },
        ));
    }
    manager.cache_add(key, h);
    proof {
        lemma_extends_trans(m0, m3, *manager);
    }
    Ok(h)
}

/// Recursively apply the binary connective `op` to `f` and `g`.
pub fn apply_bin(manager: &mut Manager, op: BinOp, f: Edge, g: Edge) -> (r: Result<
    Edge,
    OutOfMemory,
>)
    requires
        old(manager).inv(),
        edge_valid(old(manager).nodes(), f),
        edge_valid(old(manager).nodes(), g),
    ensures
        final(manager).inv(),
        final(manager).extends(*old(manager)),
        final(manager).levels == old(manager).levels,
        match r {
            Ok(h) => {
                &&& edge_valid(final(manager).nodes(), h)
                &&& edge_level(final(manager).nodes(), h) >= min2(
                    edge_level(old(manager).nodes(), f),
                    edge_level(old(manager).nodes(), g),
                )
                &&& forall|a: Map<u32, bool>| #[trigger] evals(final(manager).nodes(), h, a)
                    == bin_apply(
                    op,
                    evals(old(manager).nodes(), f, a),
                    evals(old(manager).nodes(), g, a),
                )
            },
            Err(_) => final(manager).nodes().len() == final(manager).store_cap,
        },
    decreases edge_rank(f) + edge_rank(g),
{
    let ghost m0 = *manager;
    proof {
        lemma_extends_refl(m0);
    }
    let (fi, gi) = match terminal_bin(manager, op, f, g) {
        TermCase::Done(h) => {
            return Ok(h);
        },
        TermCase::Flip(x) => {
            let r = apply_not(manager, x);
            return r;
        },
        TermCase::Descend(fi, gi) => (fi, gi),
    };
    // normalize the operand order of commutative connectives for the cache
    let swap = is_commutative(op) && gi < fi;
    let key = if swap {
        CacheKey::Bin(op, g, f)
    } else {
        CacheKey::Bin(op, f, g)
    };
    if let Some(h) = manager.cache_get(key) {
        return Ok(h);
    }
    let fnode = manager.node_at(fi);
    let gnode = manager.node_at(gi);
    proof {
        assert(node_wf(m0.nodes(), fi as int));
        assert(node_wf(m0.nodes(), gi as int));
    }
    let level = if fnode.level <= gnode.level {
        fnode.level
    } else {
        gnode.level
    };
    let (ft, fe) = if fnode.level == level {
        (fnode.then_child, fnode.else_child)
    } else {
        (f, f)
    };
    let (gt, ge) = if gnode.level == level {
        (gnode.then_child, gnode.else_child)
    } else {
        (g, g)
    };
    let t = match apply_bin(manager, op, ft, gt) {
        Ok(t) => t,
        Err(oom) => {
            return Err(oom);
        },
    };
    let ghost m1 = *manager;
    proof {
        lemma_edge_preserved(m0, m1, fe);
        lemma_edge_preserved(m0, m1, ge);
    }
    let e = match apply_bin(manager, op, fe, ge) {
        Ok(e) => e,
        Err(oom) => {
            proof {
                lemma_extends_trans(m0, m1, *manager);
            }
            return Err(oom);
        },
    };
    let ghost m2 = *manager;
    proof {
        lemma_extends_trans(m0, m1, m2);
        lemma_edge_preserved(m1, m2, t);
        assert(level < m2.levels);
        assert(edge_level(m2.nodes(), t) > level);
        assert(edge_level(m2.nodes(), e) > level);
    }
    let h = match manager.reduce(level, t, e) {
        Ok(h) => h,
        Err(oom) => {
            proof {
                lemma_extends_trans(m0, m2, *manager);
            }
            return Err(oom);
        },
    };
    let ghost m3 = *manager;
    proof {
        lemma_extends_trans(m0, m2, m3);
        lemma_edge_preserved(m0, m3, f);
        lemma_edge_preserved(m0, m3, g);
        assert forall|a: Map<u32, bool>| #[trigger] evals(m3.nodes(), h, a) == bin_apply(
            op,
            evals(m0.nodes(), f, a),
            evals(m0.nodes(), g, a),
        ) by {
            assert(evals(m3.nodes(), h, a) == if a[level] {
                evals(m2.nodes(), t, a)
            } else {
                evals(m2.nodes(), e, a)
            });
            assert(evals(m2.nodes(), t, a) == evals(m1.nodes(), t, a));
            assert(evals(m1.nodes(), t, a) == bin_apply(
                op,
                evals(m0.nodes(), ft, a),
                evals(m0.nodes(), gt, a),
            ));
            assert(evals(m2.nodes(), e, a) == bin_apply(
                op,
                evals(m1.nodes(), fe, a),
                evals(m1.nodes(), ge, a),
            ));
            assert(evals(m1.nodes(), fe, a) == evals(m0.nodes(), fe, a));
            assert(evals(m1.nodes(), ge, a) == evals(m0.nodes(), ge, a));
            assert(evals(m0.nodes(), f, a) == if a[level] {
                evals(m0.nodes(), ft, a)
            } else {
                evals(m0.nodes(), fe, a)
            });
            assert(evals(m0.nodes(), g, a) == if a[level] {
                evals(m0.nodes(), gt, a)
            } else {
                evals(m0.nodes(), ge, a)
            });
        }
        assert(crate::manager::entry_sound(
            m3.nodes(),
            m3.subst_log@,
            crate::types::CacheEntry { key, res: h },
        ));
    }
    manager.cache_add(key, h);
    proof {
        lemma_extends_trans(m0, m3, *manager);
    }
    Ok(h)
}

/// Recursively apply if-then-else: `if f { g } else { h }`.
pub fn apply_ite(manager: &mut Manager, f: Edge, g: Edge, h: Edge) -> (r: Result<
    Edge,
    OutOfMemory,
>)
    requires
        old(manager).inv(),
        edge_valid(old(manager).nodes(), f),
        edge_valid(old(manager).nodes(), g),
        edge_valid(old(manager).nodes(), h),
    ensures
        final(manager).inv(),
        final(manager).extends(*old(manager)),
        final(manager).levels == old(manager).levels,
        match r {
            Ok(res) => {
                &&& edge_valid(final(manager).nodes(), res)
                &&& edge_level(final(manager).nodes(), res) >= min3(
                    edge_level(old(manager).nodes(), f),
                    edge_level(old(manager).nodes(), g),
                    edge_level(old(manager).nodes(), h),
                )
                &&& forall|a: Map<u32, bool>| #[trigger] evals(final(manager).nodes(), res, a)
                    == if evals(old(manager).nodes(), f, a) {
                    evals(old(manager).nodes(), g, a)
                } else {
                    evals(old(manager).nodes(), h, a)
                }
            },
            Err(_) => final(manager).nodes().len() == final(manager).store_cap,
        },
        // terminal short-circuit: equal branches always succeed with the
        // shared branch itself, and touch nothing
        (g == h ==> r == Ok::<Edge, OutOfMemory>(g) && *final(manager) == *old(manager)),
    decreases edge_rank(f) + edge_rank(g) + edge_rank(h),
{
    let ghost m0 = *manager;
    proof {
        lemma_extends_refl(m0);
    }
    // algebraic short-circuits that need no descent of their own
    if g == h {
        return Ok(manager.clone_edge(&g));
    }
    if f == g {
        return apply_bin(manager, BinOp::Or, f, h);
    }
    if f == h {
        return apply_bin(manager, BinOp::And, f, g);
    }
    let fi = match f {
        Edge::Terminal(fb) => {
            return Ok(if fb {
                manager.clone_edge(&g)
            } else {
                manager.clone_edge(&h)
            });
        },
        Edge::Inner(fi) => fi,
    };
    let (gi, hi) = match (g, h) {
        (Edge::Terminal(gb), Edge::Inner(hi)) => {
            return if gb {
                apply_bin(manager, BinOp::Or, f, h)
            } else {
                apply_bin(manager, BinOp::ImpStrict, f, h)
            };
        },
        (Edge::Inner(gi), Edge::Terminal(hb)) => {
            return if hb {
                apply_bin(manager, BinOp::Imp, f, g)
            } else {
                apply_bin(manager, BinOp::And, f, g)
            };
        },
        (Edge::Terminal(gb), Edge::Terminal(_)) => {
            // g == h was handled, so the two terminals differ
            return if gb {
                Ok(manager.clone_edge(&f))
            } else {
                apply_not(manager, f)
            };
        },
        (Edge::Inner(gi), Edge::Inner(hi)) => (gi, hi),
    };
    let key = CacheKey::Ite(f, g, h);
    if let Some(res) = manager.cache_get(key) {
        return Ok(res);
    }
    let fnode = manager.node_at(fi);
    let gnode = manager.node_at(gi);
    let hnode = manager.node_at(hi);
    proof {
        assert(node_wf(m0.nodes(), fi as int));
        assert(node_wf(m0.nodes(), gi as int));
        assert(node_wf(m0.nodes(), hi as int));
    }
    let level12 = if fnode.level <= gnode.level {
        fnode.level
    } else {
        gnode.level
    };
    let level = if level12 <= hnode.level {
        level12
    } else {
        hnode.level
    };
    let (ft, fe) = if fnode.level == level {
        (fnode.then_child, fnode.else_child)
    } else {
        (f, f)
    };
    let (gt, ge) = if gnode.level == level {
        (gnode.then_child, gnode.else_child)
    } else {
        (g, g)
    };
    let (ht, he) = if hnode.level == level {
        (hnode.then_child, hnode.else_child)
    } else {
        (h, h)
    };
    let t = match apply_ite(manager, ft, gt, ht) {
        Ok(t) => t,
        Err(oom) => {
            return Err(oom);
        },
    };
    let ghost m1 = *manager;
    proof {
        lemma_edge_preserved(m0, m1, fe);
        lemma_edge_preserved(m0, m1, ge);
        lemma_edge_preserved(m0, m1, he);
    }
    let e = match apply_ite(manager, fe, ge, he) {
        Ok(e) => e,
        Err(oom) => {
            proof {
                lemma_extends_trans(m0, m1, *manager);
            }
            return Err(oom);
        },
    };
    let ghost m2 = *manager;
    proof {
        lemma_extends_trans(m0, m1, m2);
        lemma_edge_preserved(m1, m2, t);
        assert(level < m2.levels);
        assert(edge_level(m2.nodes(), t) > level);
        assert(edge_level(m2.nodes(), e) > level);
    }
    let res = match manager.reduce(level, t, e) {
        Ok(res) => res,
        Err(oom) => {
            proof {
                lemma_extends_trans(m0, m2, *manager);
            }
            return Err(oom);
        },
    };
    let ghost m3 = *manager;
    proof {
        lemma_extends_trans(m0, m2, m3);
        lemma_edge_preserved(m0, m3, f);
        lemma_edge_preserved(m0, m3, g);
        lemma_edge_preserved(m0, m3, h);
        assert forall|a: Map<u32, bool>| #[trigger] evals(m3.nodes(), res, a) == if evals(
            m0.nodes(),
            f,
            a,
        ) {
            evals(m0.nodes(), g, a)
        } else {
            evals(m0.nodes(), h, a)
        } by {
            assert(evals(m3.nodes(), res, a) == if a[level] {
                evals(m2.nodes(), t, a)
            } else {
                evals(m2.nodes(), e, a)
            });
            assert(evals(m2.nodes(), t, a) == evals(m1.nodes(), t, a));
            assert(evals(m1.nodes(), t, a) == if evals(m0.nodes(), ft, a) {
                evals(m0.nodes(), gt, a)
            } else {
                evals(m0.nodes(), ht, a)
            });
            assert(evals(m2.nodes(), e, a) == if evals(m1.nodes(), fe, a) {
                evals(m1.nodes(), ge, a)
            } else {
                evals(m1.nodes(), he, a)
            });
            assert(evals(m1.nodes(), fe, a) == evals(m0.nodes(), fe, a));
            assert(evals(m1.nodes(), ge, a) == evals(m0.nodes(), ge, a));
            assert(evals(m1.nodes(), he, a) == evals(m0.nodes(), he, a));
            assert(evals(m0.nodes(), f, a) == if a[level] {
                evals(m0.nodes(), ft, a)
            } else {
                evals(m0.nodes(), fe, a)
            });
            assert(evals(m0.nodes(), g, a) == if a[level] {
                evals(m0.nodes(), gt, a)
            } else {
                evals(m0.nodes(), ge, a)
            });
            assert(evals(m0.nodes(), h, a) == if a[level] {
                evals(m0.nodes(), ht, a)
            } else {
                evals(m0.nodes(), he, a)
            });
        }
        assert(crate::manager::entry_sound(
            m3.nodes(),
            m3.subst_log@,
            crate::types::CacheEntry { key, res },
        ));
    }
    manager.cache_add(key, res);
    proof {
        lemma_extends_trans(m0, m3, *manager);
    }
    Ok(res)
}

} // verus!
