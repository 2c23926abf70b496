//! Quantification over a set of variables, parameterized by the connective
//! that combines the two cofactors of each quantified variable: `And` for
//! the universal, `Or` for the existential, `Xor` for the unique quantifier.
//!
//! For `And` and `Or`, variables above the function's top level cannot occur
//! in it and are dropped before the cache probe; for `Xor` such a variable
//! cancels the function against itself, collapsing the result to `false`.

use vstd::prelude::*;
use crate::types::{BinOp, CacheKey, Edge, OutOfMemory};
use crate::manager::{lemma_edge_preserved, lemma_extends_refl, lemma_extends_trans, Manager};
use crate::semantics::{
    edge_level, edge_rank, edge_valid, evals, is_varset, lemma_is_cube_extend,
    lemma_quant_eval_agree, lemma_quant_eval_cofactor, lemma_quant_eval_const,
    lemma_quant_eval_drop_top, lemma_quant_eval_extend, node_wf, quant_eval,
};

verus! {

/// Quantify `f` over the variables of the set `vars`, combining cofactors
/// with `q`.
pub fn quant(manager: &mut Manager, q: BinOp, f: Edge, vars: Edge) -> (r: Result<
    Edge,
    OutOfMemory,
>)
    requires
        old(manager).inv(),
        q == BinOp::And || q == BinOp::Or || q == BinOp::Xor,
        edge_valid(old(manager).nodes(), f),
        edge_valid(old(manager).nodes(), vars),
        is_varset(old(manager).nodes(), vars),
    ensures
        final(manager).inv(),
        final(manager).extends(*old(manager)),
        final(manager).levels == old(manager).levels,
        match r {
            Ok(res) => {
                &&& edge_valid(final(manager).nodes(), res)
                &&& edge_level(final(manager).nodes(), res) >= edge_level(old(manager).nodes(), f)
                &&& forall|a: Map<u32, bool>| #[trigger] evals(final(manager).nodes(), res, a)
                    == quant_eval(old(manager).nodes(), q, f, vars, a)
            },
            Err(_) => final(manager).nodes().len() == final(manager).store_cap,
        },
        // terminal short-circuits: quantifying over no variables is the
        // identity, so is quantifying a constant under `And` or `Or`, and
        // the unique quantifier collapses to `false` as soon as the topmost
        // variable of the set lies strictly above the function; none of
        // these touches the manager
        (vars matches Edge::Terminal(_) ==> r == Ok::<Edge, OutOfMemory>(f) && *final(manager)
            == *old(manager)),
        (((f matches Edge::Terminal(_)) && q != BinOp::Xor) ==> r == Ok::<Edge, OutOfMemory>(f)
            && *final(manager) == *old(manager)),
        ((q == BinOp::Xor && (vars matches Edge::Inner(_)) && edge_level(
            old(manager).nodes(),
            vars,
        ) < edge_level(old(manager).nodes(), f)) ==> r == Ok::<Edge, OutOfMemory>(
            Edge::Terminal(false),
        ) && *final(manager) == *old(manager)),
    decreases edge_rank(f) + edge_rank(vars),
{
    let ghost m0 = *manager;
    proof {
        lemma_extends_refl(m0);
    }
    let fi = match f {
        Edge::Terminal(fb) => {
            proof {
                assert forall|a: Map<u32, bool>| true implies #[trigger] quant_eval(
                    m0.nodes(),
                    q,
                    f,
                    vars,
                    a,
                ) == (match vars {
                    Edge::Terminal(_) => fb,
                    Edge::Inner(_) => if q == BinOp::Xor {
                        false
                    } else {
                        fb
                    },
                }) by {
                    lemma_quant_eval_const(m0.nodes(), q, fb, vars, a);
                }
            }
            return match vars {
                Edge::Terminal(_) => Ok(manager.clone_edge(&f)),
                Edge::Inner(_) => {
                    if q == BinOp::Xor {
                        // the unique quantifier cancels a constant with itself
                        Ok(Edge::Terminal(false))
                    } else {
                        Ok(manager.clone_edge(&f))
                    }
                },
            };
        },
        Edge::Inner(fi) => fi,
    };
    let vi = match vars {
        Edge::Terminal(_) => {
            return Ok(manager.clone_edge(&f));
        },
        Edge::Inner(vi) => vi,
    };
    let fnode = manager.node_at(fi);
    let vnode = manager.node_at(vi);
    proof {
        assert(node_wf(m0.nodes(), fi as int));
        assert(node_wf(m0.nodes(), vi as int));
    }
    if vnode.level < fnode.level {
        // the topmost variable of the set cannot occur in f
        proof {
            assert forall|a: Map<u32, bool>| true implies (if q == BinOp::Xor {
                quant_eval(m0.nodes(), q, f, vars, a) == false
            } else {
                quant_eval(m0.nodes(), q, f, vars, a) == quant_eval(
                    m0.nodes(),
                    q,
                    f,
                    vnode.then_child,
                    a,
                )
            }) by {
                lemma_quant_eval_drop_top(m0.nodes(), q, f, vi, a);
            }
        }
        if q == BinOp::Xor {
            return Ok(Edge::Terminal(false));
        }
        let r = quant(manager, q, f, vnode.then_child);
        return r;
    }
    let key = CacheKey::Quant(q, f, vars);
    if let Some(res) = manager.cache_get(key) {
        return Ok(res);
    }
    let level = fnode.level;
    let vt_arg = if vnode.level == level {
        vnode.then_child
    } else {
        vars
    };
    let t = match quant(manager, q, fnode.then_child, vt_arg) {
        Ok(t) => t,
        Err(oom) => {
            return Err(oom);
        },
    };
    let ghost m1 = *manager;
    proof {
        lemma_edge_preserved(m0, m1, fnode.else_child);
        lemma_edge_preserved(m0, m1, vt_arg);
        lemma_is_cube_extend(m0.nodes(), m1.nodes(), vt_arg);
    }
    let e = match quant(manager, q, fnode.else_child, vt_arg) {
        Ok(e) => e,
        Err(oom) => {
            proof {
                lemma_extends_trans(m0, m1, *manager);
            }
            return Err(oom);
        },
    };
    let ghost m2 = *manager;
    proof {
        lemma_extends_trans(m0, m1, m2);
        lemma_edge_preserved(m1, m2, t);
        lemma_quant_eval_extend(m0.nodes(), m1.nodes(), q, fnode.else_child, vt_arg);
        assert(level < m2.levels);
        assert(edge_level(m2.nodes(), t) > level);
        assert(edge_level(m2.nodes(), e) > level);
    }
    let res = if vnode.level == level {
        // the pivot variable is quantified: combine with the connective
        match crate::apply::apply_bin(manager, q, t, e) {
            Ok(res) => res,
            Err(oom) => {
                proof {
                    lemma_extends_trans(m0, m2, *manager);
                }
                return Err(oom);
            },
        }
    } else {
        // the pivot variable is free: rebuild the node
        match manager.reduce(level, t, e) {
            Ok(res) => res,
            Err(oom) => {
                proof {
                    lemma_extends_trans(m0, m2, *manager);
                }
                return Err(oom);
            },
        }
    };
    let ghost m3 = *manager;
    proof {
        lemma_extends_trans(m0, m2, m3);
        lemma_edge_preserved(m0, m3, f);
        lemma_edge_preserved(m0, m3, vars);
        lemma_is_cube_extend(m0.nodes(), m3.nodes(), vars);
        lemma_quant_eval_extend(m0.nodes(), m3.nodes(), q, f, vars);
        assert forall|a: Map<u32, bool>| #[trigger] evals(m3.nodes(), res, a) == quant_eval(
            m0.nodes(),
            q,
            f,
            vars,
            a,
        ) by {
            if vnode.level == level {
                // res = q(t, e); vars = (level, rest, false)
                let rest = vnode.then_child;
                let at = a.insert(level, true);
                let ae = a.insert(level, false);
                assert(evals(m3.nodes(), res, a) == crate::semantics::bin_apply(
                    q,
                    evals(m2.nodes(), t, a),
                    evals(m2.nodes(), e, a),
                ));
                assert(evals(m2.nodes(), t, a) == evals(m1.nodes(), t, a));
                assert(evals(m1.nodes(), t, a) == quant_eval(
                    m0.nodes(),
                    q,
                    fnode.then_child,
                    rest,
                    a,
                ));
                assert(quant_eval(m1.nodes(), q, fnode.else_child, rest, a) == quant_eval(
                    m0.nodes(),
                    q,
                    fnode.else_child,
                    rest,
                    a,
                ));
                assert(evals(m2.nodes(), e, a) == quant_eval(
                    m0.nodes(),
                    q,
                    fnode.else_child,
                    rest,
                    a,
                ));
                // unfold the spec on the quantified pivot
                assert(quant_eval(m0.nodes(), q, f, vars, a) == crate::semantics::bin_apply(
                    q,
                    quant_eval(m0.nodes(), q, f, rest, at),
                    quant_eval(m0.nodes(), q, f, rest, ae),
                ));
                lemma_quant_eval_cofactor(m0.nodes(), q, fi, rest, at);
                lemma_quant_eval_cofactor(m0.nodes(), q, fi, rest, ae);
                lemma_quant_eval_agree(
                    m0.nodes(),
                    q,
                    fnode.then_child,
                    rest,
                    at,
                    a,
                    level as int + 1,
                );
                lemma_quant_eval_agree(
                    m0.nodes(),
                    q,
                    fnode.else_child,
                    rest,
                    ae,
                    a,
                    level as int + 1,
                );
            } else {
                assert(evals(m3.nodes(), res, a) == if a[level] {
                    evals(m2.nodes(), t, a)
                } else {
                    evals(m2.nodes(), e, a)
                });
                assert(evals(m2.nodes(), t, a) == evals(m1.nodes(), t, a));
                assert(evals(m1.nodes(), t, a) == quant_eval(
                    m0.nodes(),
                    q,
                    fnode.then_child,
                    vars,
                    a,
                ));
                assert(quant_eval(m1.nodes(), q, fnode.else_child, vars, a) == quant_eval(
                    m0.nodes(),
                    q,
                    fnode.else_child,
                    vars,
                    a,
                ));
                assert(evals(m2.nodes(), e, a) == quant_eval(
                    m0.nodes(),
                    q,
                    fnode.else_child,
                    vars,
                    a,
                ));
                lemma_quant_eval_cofactor(m0.nodes(), q, fi, vars, a);
            }
        }
        assert(crate::manager::entry_sound(
            m3.nodes(),
            m3.subst_log@,
            crate::types::CacheEntry { key, res },
        ));
    }
    manager.cache_add(key, res);
    proof {
        lemma_extends_trans(m0, m3, *manager);
    }
    Ok(res)
}

} // verus!
