//! The manager: the node store with its interning primitive [`Manager::reduce`],
//! the level list, and the apply cache.
//!
//! The manager's invariant [`Manager::inv`] ties the executable state to the
//! model of [`crate::semantics`]: the store is well-formed and strongly
//! canonical, every level carried by a node has been handed out by
//! [`Manager::new_var`], and every apply-cache entry is semantically correct,
//! so that a hit may stand for the result of the recursion it memoizes.

use vstd::prelude::*;
use crate::types::{BddNode, BinOp, CacheEntry, CacheKey, Edge, OutOfMemory};
use crate::semantics::{
    cube_assign, edge_level, edge_valid, evals, is_cube, is_varset, levels_below,
    lemma_cube_assign_extend, lemma_evals_extend, lemma_is_cube_extend, lemma_quant_eval_extend,
    lemma_subst_lift_extend, node_wf, nodes_unique, nodes_wf, quant_eval, subst_lift,
};

verus! {

/// The smaller of two levels.
pub open spec fn min2(x: int, y: int) -> int {
    if x <= y {
        x
    } else {
        y
    }
}

/// The smallest of three levels.
pub open spec fn min3(x: int, y: int, z: int) -> int {
    min2(x, min2(y, z))
}

/// Every edge of the replacement array refers into the store.
pub open spec fn reps_valid(nodes: Seq<BddNode>, reps: Seq<Edge>) -> bool {
    forall|k: int| 0 <= k < reps.len() ==> edge_valid(nodes, #[trigger] reps[k])
}

/// Semantic correctness of one apply-cache entry: the memoized edge denotes
/// exactly what the operation named by the key computes on the key's
/// operands. `slog` records, for each substitution salt handed out so far,
/// the replacement array it stands for.
pub open spec fn entry_sound(
    nodes: Seq<BddNode>,
    slog: Map<u64, Seq<Edge>>,
    en: CacheEntry,
) -> bool {
    &&& edge_valid(nodes, en.res)
    &&& match en.key {
        CacheKey::Not(f) => {
            &&& edge_valid(nodes, f)
            &&& edge_level(nodes, en.res) >= edge_level(nodes, f)
            &&& forall|a: Map<u32, bool>| #[trigger] evals(nodes, en.res, a) == !evals(nodes, f, a)
        },
        CacheKey::Bin(op, f, g) => {
            &&& edge_valid(nodes, f)
            &&& edge_valid(nodes, g)
            &&& edge_level(nodes, en.res) >= min2(edge_level(nodes, f), edge_level(nodes, g))
            &&& forall|a: Map<u32, bool>| #[trigger] evals(nodes, en.res, a) == crate::semantics::bin_apply(
                op,
                evals(nodes, f, a),
                evals(nodes, g, a),
            )
        },
        CacheKey::Ite(f, g, h) => {
            &&& edge_valid(nodes, f)
            &&& edge_valid(nodes, g)
            &&& edge_valid(nodes, h)
            &&& edge_level(nodes, en.res) >= min3(
                edge_level(nodes, f),
                edge_level(nodes, g),
                edge_level(nodes, h),
            )
            &&& forall|a: Map<u32, bool>| #[trigger] evals(nodes, en.res, a) == if evals(
                nodes,
                f,
                a,
            ) {
                evals(nodes, g, a)
            } else {
                evals(nodes, h, a)
            }
        },
        CacheKey::Restrict(f, v) => {
            &&& edge_valid(nodes, f)
            &&& edge_valid(nodes, v)
            &&& is_cube(nodes, v)
            &&& edge_level(nodes, en.res) >= edge_level(nodes, f)
            &&& forall|a: Map<u32, bool>| #[trigger] evals(nodes, en.res, a) == evals(
                nodes,
                f,
                cube_assign(nodes, v, a),
            )
        },
        CacheKey::Quant(q, f, v) => {
            &&& (q == BinOp::And || q == BinOp::Or || q == BinOp::Xor)
            &&& edge_valid(nodes, f)
            &&& edge_valid(nodes, v)
            &&& is_varset(nodes, v)
            &&& edge_level(nodes, en.res) >= edge_level(nodes, f)
            &&& forall|a: Map<u32, bool>| #[trigger] evals(nodes, en.res, a) == quant_eval(
                nodes,
                q,
                f,
                v,
                a,
            )
        },
        CacheKey::Subst(f, id) => {
            &&& edge_valid(nodes, f)
            &&& slog.contains_key(id)
            &&& reps_valid(nodes, slog[id])
            &&& forall|a: Map<u32, bool>| #[trigger] evals(nodes, en.res, a) == evals(
                nodes,
                f,
                subst_lift(nodes, slog[id], a),
            )
        },
    }
}

/// The store contains a node with exactly this triple.
pub open spec fn has_triple(nodes: Seq<BddNode>, level: u32, t: Edge, e: Edge) -> bool {
    exists|i: int|
        0 <= i < nodes.len() && nodes[i] == (BddNode { level, then_child: t, else_child: e })
}

/// The manager owns the node store, the current number of levels, and the
/// apply cache. The two terminals are represented directly by
/// [`Edge::Terminal`] and need no storage.
pub struct Manager {
    /// The node store; an `Edge::Inner(i)` refers to `store[i]`.
    pub store: Vec<BddNode>,
    /// How many levels (variables) exist; node levels lie strictly below.
    pub levels: u32,
    /// Capacity of the node store: interning fails with [`OutOfMemory`]
    /// once this many nodes exist and a fresh one is needed.
    pub store_cap: usize,
    /// The apply cache.
    pub cache: Vec<CacheEntry>,
    /// Bound on the number of apply-cache entries.
    pub cache_cap: usize,
    /// Round-robin hand for overwriting entries of a full cache.
    pub cache_clock: usize,
    /// Source of the numeric salts that distinguish substitution
    /// environments in the apply cache.
    pub subst_counter: u64,
    /// For each salt handed out, the replacement array it stands for.
    pub subst_log: Ghost<Map<u64, Seq<Edge>>>,
}

impl Manager {
    /// The model of the node store.
    pub open spec fn nodes(self) -> Seq<BddNode> {
        self.store@
    }

    /// The manager invariant; see the module documentation.
    pub open spec fn inv(self) -> bool {
        &&& nodes_wf(self.nodes())
        &&& nodes_unique(self.nodes())
        &&& levels_below(self.nodes(), self.levels as int)
        &&& self.store@.len() <= self.store_cap
        &&& forall|k: int|
            0 <= k < self.cache@.len() ==> entry_sound(
                self.nodes(),
                self.subst_log@,
                #[trigger] self.cache@[k],
            )
        &&& forall|id: u64|
            #[trigger] self.subst_log@.contains_key(id) ==> id < self.subst_counter
                && reps_valid(self.nodes(), self.subst_log@[id])
    }

    /// What every operation preserves: the store only grows, existing nodes,
    /// levels, capacities and recorded substitutions stay.
    pub open spec fn extends(self, pre: Manager) -> bool {
        &&& pre.store@.is_prefix_of(self.store@)
        &&& self.levels >= pre.levels
        &&& self.store_cap == pre.store_cap
        &&& self.cache_cap == pre.cache_cap
        &&& self.subst_counter >= pre.subst_counter
        &&& forall|id: u64|
            #[trigger] pre.subst_log@.contains_key(id) ==> self.subst_log@.contains_key(id)
                && self.subst_log@[id] == pre.subst_log@[id]
    }

    /// A fresh manager with no levels, no nodes and an empty cache.
    pub fn new(node_capacity: usize, cache_capacity: usize) -> (m: Manager)
        ensures
            m.inv(),
            m.nodes().len() == 0,
            m.levels == 0,
            m.store_cap == node_capacity,
            m.cache_cap == cache_capacity,
            m.cache@.len() == 0,
    {
        Manager {
            store: Vec::new(),
            levels: 0,
            store_cap: node_capacity,
            cache: Vec::new(),
            cache_cap: cache_capacity,
            cache_clock: 0,
            subst_counter: 0,
            subst_log: Ghost(Map::empty()),
        }
    }

    /// The `true` terminal.
    pub fn t_edge(&self) -> (r: Edge)
        ensures
            r == Edge::Terminal(true),
    {
        Edge::Terminal(true)
    }

    /// The `false` terminal.
    pub fn f_edge(&self) -> (r: Edge)
        ensures
            r == Edge::Terminal(false),
    {
        Edge::Terminal(false)
    }

    /// Edges are plain handles: a clone is the identical edge.
    pub fn clone_edge(&self, e: &Edge) -> (r: Edge)
        ensures
            r == *e,
    {
        *e
    }

    /// The number of levels created so far.
    pub fn num_levels(&self) -> (n: u32)
        ensures
            n == self.levels,
    {
        self.levels
    }

    /// The number of inner nodes in the store.
    pub fn node_count(&self) -> (n: usize)
        ensures
            n == self.nodes().len(),
    {
        self.store.len()
    }

    /// Read one inner node of the store.
    pub fn node_at(&self, i: usize) -> (n: BddNode)
        requires
            i < self.nodes().len(),
        ensures
            n == self.nodes()[i as int],
    {
        self.store[i]
    }

    /// The canonicalization primitive: every inner node is born here.
    /// If the two children are the same edge, that edge itself is returned
    /// (the reduction rule); otherwise the triple is interned, reusing an
    /// existing node if the triple is already present, allocating a fresh
    /// node otherwise. Fails with [`OutOfMemory`] exactly when a fresh node
    /// is needed but the store is at capacity.
    #[verifier::loop_isolation(false)]
    pub fn reduce(&mut self, level: u32, t: Edge, e: Edge) -> (r: Result<Edge, OutOfMemory>)
        requires
            old(self).inv(),
            level < old(self).levels,
            edge_valid(old(self).nodes(), t),
            edge_valid(old(self).nodes(), e),
            edge_level(old(self).nodes(), t) > level,
            edge_level(old(self).nodes(), e) > level,
        ensures
            final(self).inv(),
            final(self).extends(*old(self)),
            final(self).levels == old(self).levels,
            final(self).cache@ == old(self).cache@,
            final(self).subst_counter == old(self).subst_counter,
            final(self).subst_log@ == old(self).subst_log@,
            match r {
                Ok(h) => {
                    &&& edge_valid(final(self).nodes(), h)
                    &&& edge_level(final(self).nodes(), h) >= level
                    &&& (t != e ==> (h matches Edge::Inner(i) && final(self).nodes()[i as int]
                        == (BddNode { level, then_child: t, else_child: e })))
                    &&& (t == e ==> h == t)
                    &&& forall|a: Map<u32, bool>| #[trigger] evals(final(self).nodes(), h, a)
                        == if a[level] {
                            evals(old(self).nodes(), t, a)
                        } else {
                            evals(old(self).nodes(), e, a)
                        }
                },
                Err(_) => final(self).nodes() == old(self).nodes() && final(self).nodes().len()
                    == final(self).store_cap,
            },
            (r is Err) <==> (t != e && !has_triple(old(self).nodes(), level, t, e)
                && old(self).nodes().len() == old(self).store_cap),
    {
        proof {
            lemma_extends_refl(*self);
        }
        if t == e {
            return Ok(t);
        }
        let n = BddNode { level, then_child: t, else_child: e };
        let mut i: usize = 0;
        while i < self.store.len()
            invariant
                i <= self.store@.len(),
                forall|j: int| 0 <= j < i ==> self.store@[j] != n,
            decreases self.store@.len() - i,
        {
            if self.store[i] == n {
                proof {
                    assert(node_wf(self.nodes(), i as int));
                }
                return Ok(Edge::Inner(i));
            }
            i += 1;
        }
        if self.store.len() == self.store_cap {
            return Err(OutOfMemory);
        }
        let idx = self.store.len();
        let ghost pre = self.nodes();
        self.store.push(n);
        proof {
            let post = self.nodes();
            assert(pre =~= post.subrange(0, pre.len() as int));
            assert(pre.is_prefix_of(post));
            assert forall|j: int| 0 <= j < post.len() implies node_wf(post, j) by {
                if j < idx {
                    assert(node_wf(pre, j));
                    assert(post[j] == pre[j]);
                } else {
                    assert(post[j] == n);
                }
            }
            assert(nodes_wf(post));
            assert forall|p: int, q: int|
                0 <= p < post.len() && 0 <= q < post.len() && p != q implies post[p] != post[q] by {
                if p < idx && q < idx {
                    assert(pre[p] != pre[q]);
                } else if p == idx && q < idx {
                    assert(post[q] != n);
                } else if q == idx && p < idx {
                    assert(post[p] != n);
                }
            }
            assert forall|k: int| 0 <= k < self.cache@.len() implies entry_sound(
                post,
                self.subst_log@,
                #[trigger] self.cache@[k],
            ) by {
                lemma_entry_sound_extend(pre, post, self.subst_log@, self.cache@[k]);
            }
            assert forall|id: u64| #[trigger] self.subst_log@.contains_key(id) implies id
                < self.subst_counter && reps_valid(post, self.subst_log@[id]) by {
                assert(reps_valid(pre, self.subst_log@[id]));
                assert forall|k: int|
                    0 <= k < self.subst_log@[id].len() implies edge_valid(
                    post,
                    #[trigger] self.subst_log@[id][k],
                ) by {}
            }
            lemma_evals_extend(pre, post, t);
            lemma_evals_extend(pre, post, e);
            assert(node_wf(post, idx as int));
            assert forall|a: Map<u32, bool>| #[trigger] evals(post, Edge::Inner(idx), a)
                == if a[level] {
                    evals(pre, t, a)
                } else {
                    evals(pre, e, a)
                } by {
                assert(evals(post, Edge::Inner(idx), a) == if a[level] {
                    evals(post, t, a)
                } else {
                    evals(post, e, a)
                });
            }
        }
        Ok(Edge::Inner(idx))
    }

    /// Append a fresh level at the bottom of the order and return the edge
    /// of the variable tested at that level. Fails with [`OutOfMemory`]
    /// exactly when the store is at capacity.
    pub fn new_var(&mut self) -> (r: Result<Edge, OutOfMemory>)
        requires
            old(self).inv(),
            old(self).levels < 0xFFFF_FFFFu32,
        ensures
            final(self).inv(),
            final(self).extends(*old(self)),
            match r {
                Ok(v) => {
                    &&& final(self).levels == old(self).levels + 1
                    &&& edge_valid(final(self).nodes(), v)
                    &&& edge_level(final(self).nodes(), v) == old(self).levels as int
                    &&& (v matches Edge::Inner(i) && final(self).nodes()[i as int] == (BddNode {
                        level: old(self).levels,
                        then_child: Edge::Terminal(true),
                        else_child: Edge::Terminal(false),
                    }))
                    &&& is_varset(final(self).nodes(), v)
                    &&& is_cube(final(self).nodes(), v)
                    &&& forall|a: Map<u32, bool>|
                        #[trigger] evals(final(self).nodes(), v, a) == a[old(self).levels]
                },
                Err(_) => *final(self) == *old(self)
                    && final(self).nodes().len() == final(self).store_cap,
            },
            (r is Err) <==> old(self).nodes().len() == old(self).store_cap,
    {
        proof {
            lemma_extends_refl(*self);
        }
        if self.store.len() == self.store_cap {
            return Err(OutOfMemory);
        }
        let lv = self.levels;
        self.levels = lv + 1;
        let res = self.reduce(lv, Edge::Terminal(true), Edge::Terminal(false));
        match res {
            Ok(v) => {
                proof {
                    assert(is_varset(self.nodes(), Edge::Terminal(true)));
                    assert(is_cube(self.nodes(), Edge::Terminal(true)));
                    assert(is_varset(self.nodes(), v));
                    assert(is_cube(self.nodes(), v));
                }
                Ok(v)
            },
            Err(oom) => {
                proof {
                    assert(false);
                }
                Err(oom)
            },
        }
    }

    /// Probe the apply cache. On a hit the entry is semantically correct:
    /// the manager invariant guarantees it.
    #[verifier::loop_isolation(false)]
    pub fn cache_get(&self, key: CacheKey) -> (r: Option<Edge>)
        requires
            self.inv(),
        ensures
            match r {
                Some(h) => entry_sound(self.nodes(), self.subst_log@, (CacheEntry { key, res: h })),
                None => true,
            },
    {
        let mut i: usize = 0;
        while i < self.cache.len()
            invariant
                self.inv(),
                i <= self.cache@.len(),
            decreases self.cache@.len() - i,
        {
            let en = self.cache[i];
            if en.key == key {
                proof {
                    assert(entry_sound(self.nodes(), self.subst_log@, self.cache@[i as int]));
                    assert(self.cache@[i as int] == (CacheEntry { key, res: en.res }));
                }
                return Some(en.res);
            }
            i += 1;
        }
        None
    }

    /// Install an entry in the apply cache. The entry must be semantically
    /// correct; a full cache overwrites its oldest slot in round-robin
    /// fashion, and a cache of capacity zero drops the entry.
    pub fn cache_add(&mut self, key: CacheKey, res: Edge)
        requires
            old(self).inv(),
            entry_sound(old(self).nodes(), old(self).subst_log@, (CacheEntry { key, res })),
        ensures
            final(self).inv(),
            final(self).extends(*old(self)),
            final(self).store@ == old(self).store@,
            final(self).levels == old(self).levels,
            final(self).subst_counter == old(self).subst_counter,
            final(self).subst_log@ == old(self).subst_log@,
    {
        proof {
            lemma_extends_refl(*self);
        }
        let en = CacheEntry { key, res };
        if self.cache.len() < self.cache_cap {
            self.cache.push(en);
        } else if self.cache.len() > 0 {
            let j = self.cache_clock % self.cache.len();
            self.cache.set(j, en);
            self.cache_clock = self.cache_clock.wrapping_add(1);
        }
    }

    /// Drop every entry of the apply cache. No live edge changes its
    /// denotation: the cache is a hint, not a source of truth.
    pub fn clear_apply_cache(&mut self)
        requires
            old(self).inv(),
        ensures
            final(self).inv(),
            final(self).extends(*old(self)),
            final(self).store@ == old(self).store@,
            final(self).levels == old(self).levels,
            final(self).subst_counter == old(self).subst_counter,
            final(self).subst_log@ == old(self).subst_log@,
            final(self).cache@.len() == 0,
    {
        proof {
            lemma_extends_refl(*self);
        }
        self.cache.clear();
    }
}

/// `extends` is reflexive.
pub proof fn lemma_extends_refl(m: Manager)
    ensures
        m.extends(m),
{
    assert(m.store@ =~= m.store@.subrange(0, m.store@.len() as int));
}

/// `extends` is transitive.
pub proof fn lemma_extends_trans(m1: Manager, m2: Manager, m3: Manager)
    requires
        m2.extends(m1),
        m3.extends(m2),
    ensures
        m3.extends(m1),
{
    assert(m1.store@ =~= m3.store@.subrange(0, m1.store@.len() as int));
}

/// An edge stays valid, keeps its level and keeps its denotation when the
/// manager is extended.
pub proof fn lemma_edge_preserved(pre: Manager, post: Manager, e: Edge)
    requires
        pre.inv(),
        post.inv(),
        post.extends(pre),
        edge_valid(pre.nodes(), e),
    ensures
        edge_valid(post.nodes(), e),
        edge_level(post.nodes(), e) == edge_level(pre.nodes(), e),
        forall|a: Map<u32, bool>| #[trigger] evals(post.nodes(), e, a) == evals(pre.nodes(), e, a),
{
    lemma_evals_extend(pre.nodes(), post.nodes(), e);
}

/// A semantically correct cache entry stays correct when a fresh salt is
/// recorded: the salts it may refer to keep their replacement arrays.
pub proof fn lemma_entry_sound_log_insert(
    nodes: Seq<BddNode>,
    slog: Map<u64, Seq<Edge>>,
    fresh: u64,
    reps: Seq<Edge>,
    en: CacheEntry,
)
    requires
        entry_sound(nodes, slog, en),
        !slog.contains_key(fresh),
    ensures
        entry_sound(nodes, slog.insert(fresh, reps), en),
{
    match en.key {
        CacheKey::Subst(f, id) => {
            assert(id != fresh);
            assert(slog.insert(fresh, reps)[id] == slog[id]);
        },
        _ => {},
    }
}

/// A semantically correct cache entry stays correct when the store grows.
proof fn lemma_entry_sound_extend(
    pre: Seq<BddNode>,
    post: Seq<BddNode>,
    slog: Map<u64, Seq<Edge>>,
    en: CacheEntry,
)
    requires
        nodes_wf(pre),
        nodes_wf(post),
        pre.is_prefix_of(post),
        entry_sound(pre, slog, en),
        forall|id: u64| #[trigger] slog.contains_key(id) ==> reps_valid(pre, slog[id]),
    ensures
        entry_sound(post, slog, en),
{
    lemma_evals_extend(pre, post, en.res);
    match en.key {
        CacheKey::Not(f) => {
            lemma_evals_extend(pre, post, f);
        },
        CacheKey::Bin(op, f, g) => {
            lemma_evals_extend(pre, post, f);
            lemma_evals_extend(pre, post, g);
        },
        CacheKey::Ite(f, g, h) => {
            lemma_evals_extend(pre, post, f);
            lemma_evals_extend(pre, post, g);
            lemma_evals_extend(pre, post, h);
        },
        CacheKey::Restrict(f, v) => {
            lemma_evals_extend(pre, post, f);
            lemma_is_cube_extend(pre, post, v);
            lemma_cube_assign_extend(pre, post, v);
            assert forall|a: Map<u32, bool>| #[trigger] evals(post, en.res, a) == evals(
                post,
                f,
                cube_assign(post, v, a),
            ) by {
                assert(cube_assign(post, v, a) == cube_assign(pre, v, a));
                assert(evals(pre, en.res, a) == evals(pre, f, cube_assign(pre, v, a)));
            }
        },
        CacheKey::Quant(q, f, v) => {
            lemma_is_cube_extend(pre, post, v);
            lemma_quant_eval_extend(pre, post, q, f, v);
        },
        CacheKey::Subst(f, id) => {
            lemma_evals_extend(pre, post, f);
            assert(reps_valid(pre, slog[id]));
            lemma_subst_lift_extend(pre, post, slog[id]);
            assert forall|a: Map<u32, bool>| #[trigger] evals(post, en.res, a) == evals(
                post,
                f,
                subst_lift(post, slog[id], a),
            ) by {
                assert(subst_lift(post, slog[id], a) == subst_lift(pre, slog[id], a));
                assert(evals(pre, en.res, a) == evals(pre, f, subst_lift(pre, slog[id], a)));
            }
        },
    }
}

} // verus!
