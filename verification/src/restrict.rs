//! Restriction: cofactoring a function under a cube of literals.
//!
//! While the cube's top level lies above the function's, the cube is merely
//! advanced; at a shared level the literal selects one cofactor of the
//! function directly, producing no node; only below the function's top level
//! does the algorithm recurse structurally, and only that branch touches the
//! apply cache.

use vstd::prelude::*;
use crate::types::{CacheKey, Edge, OutOfMemory};
use crate::manager::{lemma_edge_preserved, lemma_extends_refl, lemma_extends_trans, Manager};
use crate::semantics::{
    cube_assign, edge_level, edge_rank, edge_valid, evals, is_cube, lemma_cube_assign_below,
    lemma_cube_assign_extend, lemma_evals_agree, lemma_is_cube_extend, node_wf,
};

verus! {

/// Restrict `f` under the cube `vars`: the result denotes `f` evaluated
/// under the input assignment overridden by the cube's literals.
pub fn restrict(manager: &mut Manager, f: Edge, vars: Edge) -> (r: Result<Edge, OutOfMemory>)
    requires
        old(manager).inv(),
        edge_valid(old(manager).nodes(), f),
        edge_valid(old(manager).nodes(), vars),
        is_cube(old(manager).nodes(), vars),
    ensures
        final(manager).inv(),
        final(manager).extends(*old(manager)),
        final(manager).levels == old(manager).levels,
        match r {
            Ok(res) => {
                &&& edge_valid(final(manager).nodes(), res)
                &&& edge_level(final(manager).nodes(), res) >= edge_level(old(manager).nodes(), f)
                &&& forall|a: Map<u32, bool>| #[trigger] evals(final(manager).nodes(), res, a)
                    == evals(
                    old(manager).nodes(),
                    f,
                    cube_assign(old(manager).nodes(), vars, a),
                )
            },
            Err(_) => final(manager).nodes().len() == final(manager).store_cap,
        },
        // terminal short-circuit: restricting a constant, or by the empty
        // cube, always succeeds with `f` itself and touches nothing
        ((f matches Edge::Terminal(_) || vars matches Edge::Terminal(_)) ==> r == Ok::<
            Edge,
            OutOfMemory,
        >(f) && *final(manager) == *old(manager)),
    decreases edge_rank(f) + edge_rank(vars),
{
    let ghost m0 = *manager;
    proof {
        lemma_extends_refl(m0);
    }
    let fi = match f {
        Edge::Terminal(_) => {
            return Ok(manager.clone_edge(&f));
        },
        Edge::Inner(fi) => fi,
    };
    let vi = match vars {
        Edge::Terminal(_) => {
            return Ok(manager.clone_edge(&f));
        },
        Edge::Inner(vi) => vi,
    };
    let fnode = manager.node_at(fi);
    let vnode = manager.node_at(vi);
    proof {
        assert(node_wf(m0.nodes(), fi as int));
        assert(node_wf(m0.nodes(), vi as int));
    }
    if vnode.level > fnode.level {
        // f lies above the topmost restricted variable: recurse structurally
        let key = CacheKey::Restrict(f, vars);
        if let Some(res) = manager.cache_get(key) {
            return Ok(res);
        }
        let t = match restrict(manager, fnode.then_child, vars) {
            Ok(t) => t,
            Err(oom) => {
                return Err(oom);
            },
        };
        let ghost m1 = *manager;
        proof {
            lemma_edge_preserved(m0, m1, fnode.else_child);
            lemma_edge_preserved(m0, m1, vars);
            lemma_is_cube_extend(m0.nodes(), m1.nodes(), vars);
            lemma_cube_assign_extend(m0.nodes(), m1.nodes(), vars);
        }
        let e = match restrict(manager, fnode.else_child, vars) {
            Ok(e) => e,
            Err(oom) => {
                proof {
                    lemma_extends_trans(m0, m1, *manager);
                }
                return Err(oom);
            },
        };
        let ghost m2 = *manager;
        proof {
            lemma_extends_trans(m0, m1, m2);
            lemma_edge_preserved(m1, m2, t);
            assert(fnode.level < m2.levels);
        }
        let res = match manager.reduce(fnode.level, t, e) {
            Ok(res) => res,
            Err(oom) => {
                proof {
                    lemma_extends_trans(m0, m2, *manager);
                }
                return Err(oom);
            },
        };
        let ghost m3 = *manager;
        proof {
            lemma_extends_trans(m0, m2, m3);
            lemma_edge_preserved(m0, m3, f);
            lemma_edge_preserved(m0, m3, vars);
            lemma_is_cube_extend(m0.nodes(), m3.nodes(), vars);
            lemma_cube_assign_extend(m0.nodes(), m3.nodes(), vars);
            assert forall|a: Map<u32, bool>| #[trigger] evals(m3.nodes(), res, a) == evals(
                m0.nodes(),
                f,
                cube_assign(m0.nodes(), vars, a),
            ) by {
                let ca = cube_assign(m0.nodes(), vars, a);
                assert(evals(m3.nodes(), res, a) == if a[fnode.level] {
                    evals(m2.nodes(), t, a)
                } else {
                    evals(m2.nodes(), e, a)
                });
                assert(evals(m2.nodes(), t, a) == evals(m1.nodes(), t, a));
                assert(evals(m1.nodes(), t, a) == evals(m0.nodes(), fnode.then_child, ca));
                assert(cube_assign(m1.nodes(), vars, a) == ca);
                assert(evals(m2.nodes(), e, a) == evals(
                    m1.nodes(),
                    fnode.else_child,
                    cube_assign(m1.nodes(), vars, a),
                ));
                assert(evals(m1.nodes(), fnode.else_child, ca) == evals(
                    m0.nodes(),
                    fnode.else_child,
                    ca,
                ));
                lemma_cube_assign_below(m0.nodes(), vars, a, fnode.level);
                assert(ca[fnode.level] == a[fnode.level]);
                assert(evals(m0.nodes(), f, ca) == if ca[fnode.level] {
                    evals(m0.nodes(), fnode.then_child, ca)
                } else {
                    evals(m0.nodes(), fnode.else_child, ca)
                });
            }
            assert(crate::manager::entry_sound(
                m3.nodes(),
                m3.subst_log@,
                crate::types::CacheEntry { key, res },
            ));
        }
        manager.cache_add(key, res);
        proof {
            lemma_extends_trans(m0, m3, *manager);
        }
        Ok(res)
    } else if vnode.level < fnode.level {
        // the topmost restricted variable cannot occur in f: advance the cube
        let next = if vnode.else_child == Edge::Terminal(false) {
            vnode.then_child
        } else {
            vnode.else_child
        };
        let r = restrict(manager, f, next);
        match r {
            Ok(res) => {
                proof {
                    let ghost mf = *manager;
                    assert forall|a: Map<u32, bool>| #[trigger] evals(mf.nodes(), res, a) == evals(
                        m0.nodes(),
                        f,
                        cube_assign(m0.nodes(), vars, a),
                    ) by {
                        let can = cube_assign(m0.nodes(), next, a);
                        let cav = cube_assign(m0.nodes(), vars, a);
                        assert(evals(mf.nodes(), res, a) == evals(m0.nodes(), f, can));
                        if vnode.else_child == Edge::Terminal(false) {
                            assert(cav == can.insert(vnode.level, true));
                        } else {
                            assert(cav == can.insert(vnode.level, false));
                        }
                        lemma_evals_agree(m0.nodes(), f, cav, can, vnode.level as int + 1);
                    }
                }
                Ok(res)
            },
            Err(oom) => Err(oom),
        }
    } else {
        // shared level: the literal selects one cofactor of f directly
        let (fsel, next) = if vnode.else_child == Edge::Terminal(false) {
            (fnode.then_child, vnode.then_child)
        } else {
            (fnode.else_child, vnode.else_child)
        };
        let r = restrict(manager, fsel, next);
        match r {
            Ok(res) => {
                proof {
                    let ghost mf = *manager;
                    assert forall|a: Map<u32, bool>| #[trigger] evals(mf.nodes(), res, a) == evals(
                        m0.nodes(),
                        f,
                        cube_assign(m0.nodes(), vars, a),
                    ) by {
                        let can = cube_assign(m0.nodes(), next, a);
                        let cav = cube_assign(m0.nodes(), vars, a);
                        assert(evals(mf.nodes(), res, a) == evals(m0.nodes(), fsel, can));
                        if vnode.else_child == Edge::Terminal(false) {
                            assert(cav == can.insert(vnode.level, true));
                            assert(cav[fnode.level] == true);
                        } else {
                            assert(cav == can.insert(vnode.level, false));
                            assert(cav[fnode.level] == false);
                        }
                        assert(evals(m0.nodes(), f, cav) == evals(m0.nodes(), fsel, cav));
                        lemma_evals_agree(m0.nodes(), fsel, cav, can, vnode.level as int + 1);
                    }
                }
                Ok(res)
            },
            Err(oom) => Err(oom),
        }
    }
}

} // verus!
