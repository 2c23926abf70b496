//! Substitution of variables by replacement functions.
//!
//! A substitution is prepared once into a dense array mapping each level up
//! to the largest substituted one to its replacement; levels not in the
//! domain map to the variable at that level, so that descending through
//! them re-introduces them intact. Each prepared substitution carries a
//! fresh numeric salt: the apply cache keys substitution results on
//! `(edge, salt)`, and the manager records, in ghost state, which
//! replacement array each salt stands for, so that a cache hit is known to
//! belong to this substitution and no other.

use vstd::prelude::*;
use crate::types::{BddNode, CacheKey, Edge, OutOfMemory};
use crate::manager::{
    lemma_edge_preserved, lemma_entry_sound_log_insert, lemma_extends_refl, lemma_extends_trans,
    reps_valid, Manager,
};
use crate::semantics::{
    edge_level, edge_rank, edge_valid, evals, lemma_evals_agree, lemma_evals_extend,
    lemma_subst_lift_extend, node_wf, subst_lift,
};

verus! {

/// A prepared substitution: the dense replacement array and the salt that
/// identifies it in the apply cache.
pub struct Substitution {
    /// The cache salt of this substitution environment.
    pub id: u64,
    /// `replacements[l]` is the function substituted for the variable at
    /// level `l`; levels outside the domain hold the variable itself.
    pub replacements: Vec<Edge>,
}

/// The manager has recorded this substitution under its salt.
pub open spec fn subst_registered(m: Manager, s: Substitution) -> bool {
    &&& m.subst_log@.contains_key(s.id)
    &&& m.subst_log@[s.id] == s.replacements@
}

/// Some pair of the substitution names the variable at level `l`.
pub open spec fn level_mapped(nodes: Seq<BddNode>, pairs: Seq<(Edge, Edge)>, l: int) -> bool {
    exists|k: int| 0 <= k < pairs.len() && edge_level(nodes, (#[trigger] pairs[k]).0) == l
}

/// `rep` is the replacement that some pair assigns to the variable at
/// level `l`.
pub open spec fn pair_rep(nodes: Seq<BddNode>, pairs: Seq<(Edge, Edge)>, l: int, rep: Edge) -> bool {
    exists|k: int|
        0 <= k < pairs.len() && edge_level(nodes, (#[trigger] pairs[k]).0) == l && rep == pairs[k].1
}

/// Scan the pairs for one whose variable sits at level `lvl`.
#[verifier::loop_isolation(false)]
fn find_pair(manager: &Manager, pairs: &Vec<(Edge, Edge)>, lvl: u32) -> (r: Option<Edge>)
    requires
        manager.inv(),
        forall|k: int|
            0 <= k < pairs@.len() ==> ((#[trigger] pairs@[k]).0 matches Edge::Inner(_))
                && edge_valid(manager.nodes(), pairs@[k].0),
    ensures
        match r {
            Some(rep) => pair_rep(manager.nodes(), pairs@, lvl as int, rep),
            None => !level_mapped(manager.nodes(), pairs@, lvl as int),
        },
{
    let mut k: usize = 0;
    while k < pairs.len()
        invariant
            k <= pairs@.len(),
            forall|k2: int|
                0 <= k2 < k ==> edge_level(manager.nodes(), (#[trigger] pairs@[k2]).0) != lvl as int,
        decreases pairs@.len() - k,
    {
        let (v, rep) = pairs[k];
        let vl = match v {
            Edge::Inner(i) => manager.node_at(i).level,
            Edge::Terminal(_) => {
                proof {
                    assert(false);
                }
                0
            },
        };
        if vl == lvl {
            return Some(rep);
        }
        k += 1;
    }
    None
}

/// Prepare a substitution from `(variable, replacement)` pairs: build the
/// dense replacement array, fill the levels not in the domain with the
/// variable at that level, and register the array under a fresh salt.
/// A variable must not occur twice among the pairs.
#[verifier::loop_isolation(false)]
pub fn substitute_prepare(manager: &mut Manager, pairs: &Vec<(Edge, Edge)>) -> (r: Result<
    Substitution,
    OutOfMemory,
>)
    requires
        old(manager).inv(),
        forall|k: int|
            0 <= k < pairs@.len() ==> ((#[trigger] pairs@[k]).0 matches Edge::Inner(_))
                && edge_valid(old(manager).nodes(), pairs@[k].0) && edge_valid(
                old(manager).nodes(),
                pairs@[k].1,
            ),
        forall|k1: int, k2: int|
            0 <= k1 < pairs@.len() && 0 <= k2 < pairs@.len() && k1 != k2 ==> edge_level(
                old(manager).nodes(),
                (#[trigger] pairs@[k1]).0,
            ) != edge_level(old(manager).nodes(), (#[trigger] pairs@[k2]).0),
    ensures
        final(manager).inv(),
        final(manager).extends(*old(manager)),
        final(manager).levels == old(manager).levels,
        match r {
            Ok(s) => {
                &&& subst_registered(*final(manager), s)
                &&& reps_valid(final(manager).nodes(), s.replacements@)
                &&& (pairs@.len() == 0 ==> s.replacements@.len() == 0)
                &&& (pairs@.len() > 0 ==> exists|k: int|
                    0 <= k < pairs@.len() && edge_level(
                        old(manager).nodes(),
                        (#[trigger] pairs@[k]).0,
                    ) + 1 == s.replacements@.len())
                &&& forall|k: int|
                    0 <= k < pairs@.len() ==> edge_level(
                        old(manager).nodes(),
                        (#[trigger] pairs@[k]).0,
                    ) < s.replacements@.len()
                &&& forall|l: int|
                    0 <= l < s.replacements@.len() && level_mapped(old(manager).nodes(), pairs@, l)
                        ==> pair_rep(
                        old(manager).nodes(),
                        pairs@,
                        l,
                        #[trigger] s.replacements@[l],
                    )
                &&& forall|l: int|
                    0 <= l < s.replacements@.len() && !level_mapped(old(manager).nodes(), pairs@, l)
                        ==> forall|a: Map<u32, bool>|
                        #[trigger] evals(final(manager).nodes(), s.replacements@[l], a) == a[l as u32]
            },
            Err(_) => final(manager).nodes().len() == final(manager).store_cap || old(
                manager,
            ).subst_counter == 0xFFFF_FFFF_FFFF_FFFFu64,
        },
{
    let ghost m0 = *manager;
    proof {
        lemma_extends_refl(m0);
    }
    if manager.subst_counter == 0xFFFF_FFFF_FFFF_FFFFu64 {
        return Err(OutOfMemory);
    }
    // the dense array covers levels up to the largest substituted variable
    let mut len: usize = 0;
    let mut k: usize = 0;
    while k < pairs.len()
        invariant
            *manager == m0,
            m0.inv(),
            k <= pairs@.len(),
            len <= 0x1_0000_0000,
            len <= m0.levels,
            k == 0 ==> len == 0,
            len > 0 ==> exists|k2: int|
                0 <= k2 < k && edge_level(m0.nodes(), (#[trigger] pairs@[k2]).0) + 1 == len,
            forall|k2: int|
                0 <= k2 < pairs@.len() ==> ((#[trigger] pairs@[k2]).0 matches Edge::Inner(_))
                    && edge_valid(m0.nodes(), pairs@[k2].0),
            forall|k2: int|
                0 <= k2 < k ==> edge_level(m0.nodes(), (#[trigger] pairs@[k2]).0) < len,
        decreases pairs@.len() - k,
    {
        let (v, _) = pairs[k];
        let vl = match v {
            Edge::Inner(i) => manager.node_at(i).level,
            Edge::Terminal(_) => {
                proof {
                    assert(false);
                }
                0
            },
        };
        proof {
            if let Edge::Inner(i) = v {
                assert(m0.nodes()[i as int].level < m0.levels);
            }
        }
        if (vl as usize) + 1 > len {
            len = (vl as usize) + 1;
        }
        k += 1;
    }
    // build the array level by level: the replacement where a pair names
    // the level, the variable itself everywhere else
    let mut reps: Vec<Edge> = Vec::new();
    let mut l: usize = 0;
    while l < len
        invariant
            manager.inv(),
            manager.extends(m0),
            manager.levels == m0.levels,
            manager.subst_counter == m0.subst_counter,
            manager.subst_log@ == m0.subst_log@,
            m0.inv(),
            m0.subst_counter < 0xFFFF_FFFF_FFFF_FFFFu64,
            l <= len,
            len <= 0x1_0000_0000,
            len <= m0.levels,
            reps@.len() == l,
            forall|k2: int|
                0 <= k2 < pairs@.len() ==> ((#[trigger] pairs@[k2]).0 matches Edge::Inner(_))
                    && edge_valid(manager.nodes(), pairs@[k2].0) && edge_valid(
                    manager.nodes(),
                    pairs@[k2].1,
                ) && edge_level(manager.nodes(), pairs@[k2].0) == edge_level(
                    m0.nodes(),
                    pairs@[k2].0,
                ),
            forall|j: int| 0 <= j < l ==> edge_valid(manager.nodes(), #[trigger] reps@[j]),
            forall|j: int|
                0 <= j < l && level_mapped(m0.nodes(), pairs@, j) ==> pair_rep(
                    m0.nodes(),
                    pairs@,
                    j,
                    #[trigger] reps@[j],
                ),
            forall|j: int|
                0 <= j < l && !level_mapped(m0.nodes(), pairs@, j) ==> forall|a: Map<u32, bool>|
                    #[trigger] evals(manager.nodes(), reps@[j], a) == a[j as u32],
        decreases len - l,
    {
        let found = find_pair(manager, pairs, l as u32);
        let ghost mpre = *manager;
        let rep = match found {
            Some(rep) => {
                proof {
                    let kw = choose|kw: int|
                        0 <= kw < pairs@.len() && edge_level(mpre.nodes(), (#[trigger] pairs@[kw]).0)
                            == l as int && rep == pairs@[kw].1;
                    assert(edge_level(m0.nodes(), pairs@[kw].0) == l as int);
                    assert(pair_rep(m0.nodes(), pairs@, l as int, rep));
                    assert(level_mapped(m0.nodes(), pairs@, l as int));
                }
                rep
            },
            None => {
                proof {
                    if level_mapped(m0.nodes(), pairs@, l as int) {
                        let kw = choose|kw: int|
                            0 <= kw < pairs@.len() && edge_level(
                                m0.nodes(),
                                (#[trigger] pairs@[kw]).0,
                            ) == l as int;
                        assert(edge_level(mpre.nodes(), pairs@[kw].0) == l as int);
                        assert(false);
                    }
                }
                match manager.reduce(l as u32, Edge::Terminal(true), Edge::Terminal(false)) {
                    Ok(v) => v,
                    Err(oom) => {
                        proof {
                            lemma_extends_trans(m0, mpre, *manager);
                        }
                        return Err(oom);
                    },
                }
            },
        };
        proof {
            lemma_extends_trans(m0, mpre, *manager);
            assert forall|k2: int| 0 <= k2 < pairs@.len() implies ((#[trigger] pairs@[k2]).0 matches Edge::Inner(_))
                && edge_valid(manager.nodes(), pairs@[k2].0) && edge_valid(
                manager.nodes(),
                pairs@[k2].1,
            ) && edge_level(manager.nodes(), pairs@[k2].0) == edge_level(
                m0.nodes(),
                pairs@[k2].0,
            ) by {
                lemma_edge_preserved(mpre, *manager, pairs@[k2].0);
                lemma_edge_preserved(mpre, *manager, pairs@[k2].1);
            }
            assert forall|j: int|
                0 <= j < reps@.len() && !level_mapped(m0.nodes(), pairs@, j) implies forall|
                a: Map<u32, bool>,
            |
                #[trigger] evals(manager.nodes(), reps@[j], a) == a[j as u32] by {
                lemma_evals_extend(mpre.nodes(), manager.nodes(), reps@[j]);
            }
        }
        reps.push(rep);
        l += 1;
    }
    // register the array under a fresh salt
    let ghost mc = *manager;
    let id = manager.subst_counter;
    manager.subst_counter = id + 1;
    proof {
        assert(!manager.subst_log@.contains_key(id));
    }
    manager.subst_log = Ghost(manager.subst_log@.insert(id, reps@));
    proof {
        assert forall|k2: int| 0 <= k2 < manager.cache@.len() implies crate::manager::entry_sound(
            manager.nodes(),
            manager.subst_log@,
            #[trigger] manager.cache@[k2],
        ) by {
            lemma_entry_sound_log_insert(
                manager.nodes(),
                mc.subst_log@,
                id,
                reps@,
                manager.cache@[k2],
            );
        }
        lemma_extends_refl(mc);
        assert forall|id0: u64| #[trigger] mc.subst_log@.contains_key(id0)
            implies manager.subst_log@.contains_key(id0) && manager.subst_log@[id0]
            == mc.subst_log@[id0] by {
            assert(id0 < mc.subst_counter);
        }
        assert(manager.extends(mc));
        lemma_extends_trans(m0, mc, *manager);
        if pairs@.len() > 0 {
            assert(edge_level(m0.nodes(), pairs@[0].0) < len as int);
            assert(len > 0);
            let kw = choose|k2: int|
                0 <= k2 < pairs@.len() && edge_level(m0.nodes(), (#[trigger] pairs@[k2]).0) + 1
                    == len as int;
            assert(edge_level(m0.nodes(), pairs@[kw].0) + 1 == reps@.len());
        }
    }
    Ok(Substitution { id, replacements: reps })
}

/// Substitute through `f`: the result denotes `f` read under the
/// substituted assignment, in which each level of the replacement array
/// carries the value of its replacement function.
pub fn substitute(manager: &mut Manager, f: Edge, subst: &Substitution) -> (r: Result<
    Edge,
    OutOfMemory,
>)
    requires
        old(manager).inv(),
        edge_valid(old(manager).nodes(), f),
        subst_registered(*old(manager), *subst),
    ensures
        final(manager).inv(),
        final(manager).extends(*old(manager)),
        final(manager).levels == old(manager).levels,
        match r {
            Ok(res) => {
                &&& edge_valid(final(manager).nodes(), res)
                &&& forall|a: Map<u32, bool>| #[trigger] evals(final(manager).nodes(), res, a)
                    == evals(
                    old(manager).nodes(),
                    f,
                    subst_lift(old(manager).nodes(), subst.replacements@, a),
                )
            },
            Err(_) => final(manager).nodes().len() == final(manager).store_cap,
        },
        // terminal short-circuit: a constant, or a function entirely below
        // the substituted range, always comes back unchanged, and nothing
        // is touched
        ((f matches Edge::Terminal(_) || edge_level(old(manager).nodes(), f)
            >= subst.replacements@.len()) ==> r == Ok::<Edge, OutOfMemory>(f) && *final(manager)
            == *old(manager)),
    decreases edge_rank(f),
{
    let ghost m0 = *manager;
    let ghost reps = subst.replacements@;
    proof {
        lemma_extends_refl(m0);
        assert(reps_valid(m0.nodes(), reps));
    }
    let fi = match f {
        Edge::Terminal(_) => {
            return Ok(manager.clone_edge(&f));
        },
        Edge::Inner(fi) => fi,
    };
    let fnode = manager.node_at(fi);
    proof {
        assert(node_wf(m0.nodes(), fi as int));
    }
    if fnode.level as usize >= subst.replacements.len() {
        // f lies entirely below the substituted range
        proof {
            assert forall|a: Map<u32, bool>| #[trigger] evals(m0.nodes(), f, subst_lift(
                m0.nodes(),
                reps,
                a,
            )) == evals(m0.nodes(), f, a) by {
                lemma_evals_agree(
                    m0.nodes(),
                    f,
                    subst_lift(m0.nodes(), reps, a),
                    a,
                    reps.len() as int,
                );
            }
        }
        return Ok(manager.clone_edge(&f));
    }
    let key = CacheKey::Subst(f, subst.id);
    if let Some(res) = manager.cache_get(key) {
        proof {
            assert(m0.subst_log@[subst.id] == reps);
        }
        return Ok(res);
    }
    let t = match substitute(manager, fnode.then_child, subst) {
        Ok(t) => t,
        Err(oom) => {
            return Err(oom);
        },
    };
    let ghost m1 = *manager;
    proof {
        lemma_edge_preserved(m0, m1, fnode.else_child);
        lemma_subst_lift_extend(m0.nodes(), m1.nodes(), reps);
    }
    let e = match substitute(manager, fnode.else_child, subst) {
        Ok(e) => e,
        Err(oom) => {
            proof {
                lemma_extends_trans(m0, m1, *manager);
            }
            return Err(oom);
        },
    };
    let ghost m2 = *manager;
    proof {
        lemma_extends_trans(m0, m1, m2);
        lemma_edge_preserved(m1, m2, t);
    }
    let rep = subst.replacements[fnode.level as usize];
    proof {
        assert(edge_valid(m0.nodes(), rep));
        lemma_edge_preserved(m0, m2, rep);
    }
    let res = match crate::apply::apply_ite(manager, rep, t, e) {
        Ok(res) => res,
        Err(oom) => {
            proof {
                lemma_extends_trans(m0, m2, *manager);
            }
            return Err(oom);
        },
    };
    let ghost m3 = *manager;
    proof {
        lemma_extends_trans(m0, m2, m3);
        lemma_edge_preserved(m0, m3, f);
        lemma_subst_lift_extend(m0.nodes(), m3.nodes(), reps);
        assert forall|a: Map<u32, bool>| #[trigger] evals(m3.nodes(), res, a) == evals(
            m0.nodes(),
            f,
            subst_lift(m0.nodes(), reps, a),
        ) by {
            let la = subst_lift(m0.nodes(), reps, a);
            assert(evals(m3.nodes(), res, a) == if evals(m2.nodes(), rep, a) {
                evals(m2.nodes(), t, a)
            } else {
                evals(m2.nodes(), e, a)
            });
            assert(evals(m2.nodes(), rep, a) == evals(m0.nodes(), rep, a));
            assert(evals(m2.nodes(), t, a) == evals(m1.nodes(), t, a));
            assert(evals(m1.nodes(), t, a) == evals(m0.nodes(), fnode.then_child, la));
            assert(subst_lift(m1.nodes(), reps, a) == la);
            assert(evals(m2.nodes(), e, a) == evals(
                m1.nodes(),
                fnode.else_child,
                subst_lift(m1.nodes(), reps, a),
            ));
            assert(evals(m1.nodes(), fnode.else_child, la) == evals(
                m0.nodes(),
                fnode.else_child,
                la,
            ));
            assert(la[fnode.level] == evals(m0.nodes(), reps[fnode.level as int], a));
            assert(evals(m0.nodes(), f, la) == if la[fnode.level] {
                evals(m0.nodes(), fnode.then_child, la)
            } else {
                evals(m0.nodes(), fnode.else_child, la)
            });
        }
        assert(m3.subst_log@.contains_key(subst.id) && m3.subst_log@[subst.id] == reps);
        assert(crate::manager::entry_sound(
            m3.nodes(),
            m3.subst_log@,
            crate::types::CacheEntry { key, res },
        ));
    }
    manager.cache_add(key, res);
    proof {
        lemma_extends_trans(m0, m3, *manager);
    }
    Ok(res)
}

} // verus!
