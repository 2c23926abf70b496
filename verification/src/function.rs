//! The Boolean-function face of the engine: a thin wrapper over edges, and
//! the operation set of the algebra, each operation delegating to the
//! recursive apply engine with its connective fixed.

use vstd::prelude::*;
use crate::types::{BinOp, Edge, OptBool, OutOfMemory};
use crate::manager::{lemma_edge_preserved, lemma_extends_trans, Manager};
use crate::semantics::{
    cube_assign, edge_level, edge_valid, evals, is_cube, is_varset, quant_eval, subst_lift,
};
use crate::subst::{level_mapped, pair_rep, substitute, substitute_prepare};
use crate::analysis::{picked_cube_ok, PickChoice};

verus! {

/// A Boolean function: an owned edge into the manager's diagram.
#[derive(Clone, Copy, PartialEq, Eq, Structural, Debug)]
pub struct BDDFunction(pub Edge);

/// The replacement that the pairs assign to the variable at level `l`.
/// Meaningful only where some pair names that level and no two pairs name
/// the same one.
pub open spec fn rep_at(nodes: Seq<crate::types::BddNode>, pairs: Seq<(Edge, Edge)>, l: int) -> Edge {
    let k = choose|k: int|
        0 <= k < pairs.len() && edge_level(nodes, (#[trigger] pairs[k]).0) == l;
    pairs[k].1
}

/// The assignment seen through a list of substitution pairs: a level some
/// pair names reads the value of its replacement, every other level is
/// untouched.
pub open spec fn pairs_assign(
    nodes: Seq<crate::types::BddNode>,
    pairs: Seq<(Edge, Edge)>,
    a: Map<u32, bool>,
) -> Map<u32, bool> {
    Map::total(
        |l: u32|
            if level_mapped(nodes, pairs, l as int) {
                evals(nodes, rep_at(nodes, pairs, l as int), a)
            } else {
                a[l]
            },
    )
}

impl From<Edge> for BDDFunction {
    fn from(value: Edge) -> (r: BDDFunction) {
        BDDFunction(value)
    }
}

impl vstd::std_specs::convert::FromSpecImpl<Edge> for BDDFunction {
    open spec fn obeys_from_spec() -> bool {
        true
    }

    open spec fn from_spec(value: Edge) -> BDDFunction {
        BDDFunction(value)
    }
}

impl BDDFunction {
    /// Convert an edge into a function wrapper.
    pub fn from_edge(edge: Edge) -> (r: BDDFunction)
        ensures
            r.0 == edge,
    {
        BDDFunction(edge)
    }

    /// Convert the wrapper back into its edge.
    pub fn into_inner(self) -> (r: Edge)
        ensures
            r == self.0,
    {
        self.0
    }

    /// A fresh variable at a fresh bottom level.
    pub fn new_var(manager: &mut Manager) -> (r: Result<BDDFunction, OutOfMemory>)
        requires
            old(manager).inv(),
            old(manager).levels < 0xFFFF_FFFFu32,
        ensures
            final(manager).inv(),
            final(manager).extends(*old(manager)),
            match r {
                Ok(v) => {
                    &&& final(manager).levels == old(manager).levels + 1
                    &&& edge_valid(final(manager).nodes(), v.0)
                    &&& edge_level(final(manager).nodes(), v.0) == old(manager).levels as int
                    &&& (v.0 matches Edge::Inner(i) && final(manager).nodes()[i as int]
                        == (crate::types::BddNode {
                        level: old(manager).levels,
                        then_child: Edge::Terminal(true),
                        else_child: Edge::Terminal(false),
                    }))
                    &&& is_varset(final(manager).nodes(), v.0)
                    &&& is_cube(final(manager).nodes(), v.0)
                    &&& forall|a: Map<u32, bool>|
                        #[trigger] evals(final(manager).nodes(), v.0, a) == a[old(manager).levels]
                },
                Err(_) => final(manager).nodes().len() == final(manager).store_cap,
            },
    {
        match manager.new_var() {
            Ok(v) => Ok(BDDFunction(v)),
            Err(oom) => Err(oom),
        }
    }

    /// The `false` terminal.
    pub fn f_edge(manager: &Manager) -> (r: Edge)
        ensures
            r == Edge::Terminal(false),
    {
        manager.f_edge()
    }

    /// The `true` terminal.
    pub fn t_edge(manager: &Manager) -> (r: Edge)
        ensures
            r == Edge::Terminal(true),
    {
        manager.t_edge()
    }

    /// Negation.
    pub fn not_edge(manager: &mut Manager, edge: Edge) -> (r: Result<Edge, OutOfMemory>)
        requires
            old(manager).inv(),
            edge_valid(old(manager).nodes(), edge),
        ensures
            final(manager).inv(),
            final(manager).extends(*old(manager)),
            final(manager).levels == old(manager).levels,
            match r {
                Ok(h) => {
                    &&& edge_valid(final(manager).nodes(), h)
                    &&& forall|a: Map<u32, bool>| #[trigger] evals(final(manager).nodes(), h, a)
                        == !evals(old(manager).nodes(), edge, a)
                },
                Err(_) => final(manager).nodes().len() == final(manager).store_cap,
            },
            (edge matches Edge::Terminal(b) ==> r == Ok::<Edge, OutOfMemory>(Edge::Terminal(!b))
                && *final(manager) == *old(manager)),
    {
        crate::apply::apply_not(manager, edge)
    }

    /// Conjunction.
    pub fn and_edge(manager: &mut Manager, lhs: Edge, rhs: Edge) -> (r: Result<Edge, OutOfMemory>)
        requires
            old(manager).inv(),
            edge_valid(old(manager).nodes(), lhs),
            edge_valid(old(manager).nodes(), rhs),
        ensures
            final(manager).inv(),
            final(manager).extends(*old(manager)),
            final(manager).levels == old(manager).levels,
            match r {
                Ok(h) => {
                    &&& edge_valid(final(manager).nodes(), h)
                    &&& forall|a: Map<u32, bool>| #[trigger] evals(final(manager).nodes(), h, a)
                        == (evals(old(manager).nodes(), lhs, a) && evals(
                        old(manager).nodes(),
                        rhs,
                        a,
                    ))
                },
                Err(_) => final(manager).nodes().len() == final(manager).store_cap,
            },
    {
        crate::apply::apply_bin(manager, BinOp::And, lhs, rhs)
    }

    /// Disjunction.
    pub fn or_edge(manager: &mut Manager, lhs: Edge, rhs: Edge) -> (r: Result<Edge, OutOfMemory>)
        requires
            old(manager).inv(),
            edge_valid(old(manager).nodes(), lhs),
            edge_valid(old(manager).nodes(), rhs),
        ensures
            final(manager).inv(),
            final(manager).extends(*old(manager)),
            final(manager).levels == old(manager).levels,
            match r {
                Ok(h) => {
                    &&& edge_valid(final(manager).nodes(), h)
                    &&& forall|a: Map<u32, bool>| #[trigger] evals(final(manager).nodes(), h, a)
                        == (evals(old(manager).nodes(), lhs, a) || evals(
                        old(manager).nodes(),
                        rhs,
                        a,
                    ))
                },
                Err(_) => final(manager).nodes().len() == final(manager).store_cap,
            },
    {
        crate::apply::apply_bin(manager, BinOp::Or, lhs, rhs)
    }

    /// Negated conjunction.
    pub fn nand_edge(manager: &mut Manager, lhs: Edge, rhs: Edge) -> (r: Result<Edge, OutOfMemory>)
        requires
            old(manager).inv(),
            edge_valid(old(manager).nodes(), lhs),
            edge_valid(old(manager).nodes(), rhs),
        ensures
            final(manager).inv(),
            final(manager).extends(*old(manager)),
            final(manager).levels == old(manager).levels,
            match r {
                Ok(h) => {
                    &&& edge_valid(final(manager).nodes(), h)
                    &&& forall|a: Map<u32, bool>| #[trigger] evals(final(manager).nodes(), h, a)
                        == !(evals(old(manager).nodes(), lhs, a) && evals(
                        old(manager).nodes(),
                        rhs,
                        a,
                    ))
                },
                Err(_) => final(manager).nodes().len() == final(manager).store_cap,
            },
    {
        crate::apply::apply_bin(manager, BinOp::Nand, lhs, rhs)
    }

    /// Negated disjunction.
    pub fn nor_edge(manager: &mut Manager, lhs: Edge, rhs: Edge) -> (r: Result<Edge, OutOfMemory>)
        requires
            old(manager).inv(),
            edge_valid(old(manager).nodes(), lhs),
            edge_valid(old(manager).nodes(), rhs),
        ensures
            final(manager).inv(),
            final(manager).extends(*old(manager)),
            final(manager).levels == old(manager).levels,
            match r {
                Ok(h) => {
                    &&& edge_valid(final(manager).nodes(), h)
                    &&& forall|a: Map<u32, bool>| #[trigger] evals(final(manager).nodes(), h, a)
                        == !(evals(old(manager).nodes(), lhs, a) || evals(
                        old(manager).nodes(),
                        rhs,
                        a,
                    ))
                },
                Err(_) => final(manager).nodes().len() == final(manager).store_cap,
            },
    {
        crate::apply::apply_bin(manager, BinOp::Nor, lhs, rhs)
    }

    /// Exclusive disjunction.
    pub fn xor_edge(manager: &mut Manager, lhs: Edge, rhs: Edge) -> (r: Result<Edge, OutOfMemory>)
        requires
            old(manager).inv(),
            edge_valid(old(manager).nodes(), lhs),
            edge_valid(old(manager).nodes(), rhs),
        ensures
            final(manager).inv(),
            final(manager).extends(*old(manager)),
            final(manager).levels == old(manager).levels,
            match r {
                Ok(h) => {
                    &&& edge_valid(final(manager).nodes(), h)
                    &&& forall|a: Map<u32, bool>| #[trigger] evals(final(manager).nodes(), h, a)
                        == (evals(old(manager).nodes(), lhs, a) != evals(
                        old(manager).nodes(),
                        rhs,
                        a,
                    ))
                },
                Err(_) => final(manager).nodes().len() == final(manager).store_cap,
            },
    {
        crate::apply::apply_bin(manager, BinOp::Xor, lhs, rhs)
    }

    /// Equivalence.
    pub fn equiv_edge(manager: &mut Manager, lhs: Edge, rhs: Edge) -> (r: Result<
        Edge,
        OutOfMemory,
    >)
        requires
            old(manager).inv(),
            edge_valid(old(manager).nodes(), lhs),
            edge_valid(old(manager).nodes(), rhs),
        ensures
            final(manager).inv(),
            final(manager).extends(*old(manager)),
            final(manager).levels == old(manager).levels,
            match r {
                Ok(h) => {
                    &&& edge_valid(final(manager).nodes(), h)
                    &&& forall|a: Map<u32, bool>| #[trigger] evals(final(manager).nodes(), h, a)
                        == (evals(old(manager).nodes(), lhs, a) == evals(
                        old(manager).nodes(),
                        rhs,
                        a,
                    ))
                },
                Err(_) => final(manager).nodes().len() == final(manager).store_cap,
            },
    {
        crate::apply::apply_bin(manager, BinOp::Equiv, lhs, rhs)
    }

    /// Implication.
    pub fn imp_edge(manager: &mut Manager, lhs: Edge, rhs: Edge) -> (r: Result<Edge, OutOfMemory>)
        requires
            old(manager).inv(),
            edge_valid(old(manager).nodes(), lhs),
            edge_valid(old(manager).nodes(), rhs),
        ensures
            final(manager).inv(),
            final(manager).extends(*old(manager)),
            final(manager).levels == old(manager).levels,
            match r {
                Ok(h) => {
                    &&& edge_valid(final(manager).nodes(), h)
                    &&& forall|a: Map<u32, bool>| #[trigger] evals(final(manager).nodes(), h, a)
                        == (!evals(old(manager).nodes(), lhs, a) || evals(
                        old(manager).nodes(),
                        rhs,
                        a,
                    ))
                },
                Err(_) => final(manager).nodes().len() == final(manager).store_cap,
            },
    {
        crate::apply::apply_bin(manager, BinOp::Imp, lhs, rhs)
    }

    /// Strict implication: the left side false and the right side true.
    pub fn imp_strict_edge(manager: &mut Manager, lhs: Edge, rhs: Edge) -> (r: Result<
        Edge,
        OutOfMemory,
    >)
        requires
            old(manager).inv(),
            edge_valid(old(manager).nodes(), lhs),
            edge_valid(old(manager).nodes(), rhs),
        ensures
            final(manager).inv(),
            final(manager).extends(*old(manager)),
            final(manager).levels == old(manager).levels,
            match r {
                Ok(h) => {
                    &&& edge_valid(final(manager).nodes(), h)
                    &&& forall|a: Map<u32, bool>| #[trigger] evals(final(manager).nodes(), h, a)
                        == (!evals(old(manager).nodes(), lhs, a) && evals(
                        old(manager).nodes(),
                        rhs,
                        a,
                    ))
                },
                Err(_) => final(manager).nodes().len() == final(manager).store_cap,
            },
    {
        crate::apply::apply_bin(manager, BinOp::ImpStrict, lhs, rhs)
    }

    /// If-then-else.
    pub fn ite_edge(manager: &mut Manager, if_edge: Edge, then_edge: Edge, else_edge: Edge) -> (r:
        Result<Edge, OutOfMemory>)
        requires
            old(manager).inv(),
            edge_valid(old(manager).nodes(), if_edge),
            edge_valid(old(manager).nodes(), then_edge),
            edge_valid(old(manager).nodes(), else_edge),
        ensures
            final(manager).inv(),
            final(manager).extends(*old(manager)),
            final(manager).levels == old(manager).levels,
            match r {
                Ok(h) => {
                    &&& edge_valid(final(manager).nodes(), h)
                    &&& forall|a: Map<u32, bool>| #[trigger] evals(final(manager).nodes(), h, a)
                        == if evals(old(manager).nodes(), if_edge, a) {
                        evals(old(manager).nodes(), then_edge, a)
                    } else {
                        evals(old(manager).nodes(), else_edge, a)
                    }
                },
                Err(_) => final(manager).nodes().len() == final(manager).store_cap,
            },
            (then_edge == else_edge ==> r == Ok::<Edge, OutOfMemory>(then_edge) && *final(manager)
                == *old(manager)),
    {
        crate::apply::apply_ite(manager, if_edge, then_edge, else_edge)
    }

    /// Restriction under a cube.
    pub fn restrict_edge(manager: &mut Manager, root: Edge, vars: Edge) -> (r: Result<
        Edge,
        OutOfMemory,
    >)
        requires
            old(manager).inv(),
            edge_valid(old(manager).nodes(), root),
            edge_valid(old(manager).nodes(), vars),
            is_cube(old(manager).nodes(), vars),
        ensures
            final(manager).inv(),
            final(manager).extends(*old(manager)),
            final(manager).levels == old(manager).levels,
            match r {
                Ok(h) => {
                    &&& edge_valid(final(manager).nodes(), h)
                    &&& forall|a: Map<u32, bool>| #[trigger] evals(final(manager).nodes(), h, a)
                        == evals(
                        old(manager).nodes(),
                        root,
                        cube_assign(old(manager).nodes(), vars, a),
                    )
                },
                Err(_) => final(manager).nodes().len() == final(manager).store_cap,
            },
            ((root matches Edge::Terminal(_) || vars matches Edge::Terminal(_)) ==> r == Ok::<
                Edge,
                OutOfMemory,
            >(root) && *final(manager) == *old(manager)),
    {
        crate::restrict::restrict(manager, root, vars)
    }

    /// Universal quantification over a variable set.
    pub fn forall_edge(manager: &mut Manager, root: Edge, vars: Edge) -> (r: Result<
        Edge,
        OutOfMemory,
    >)
        requires
            old(manager).inv(),
            edge_valid(old(manager).nodes(), root),
            edge_valid(old(manager).nodes(), vars),
            is_varset(old(manager).nodes(), vars),
        ensures
            final(manager).inv(),
            final(manager).extends(*old(manager)),
            final(manager).levels == old(manager).levels,
            match r {
                Ok(h) => {
                    &&& edge_valid(final(manager).nodes(), h)
                    &&& forall|a: Map<u32, bool>| #[trigger] evals(final(manager).nodes(), h, a)
                        == quant_eval(old(manager).nodes(), BinOp::And, root, vars, a)
                },
                Err(_) => final(manager).nodes().len() == final(manager).store_cap,
            },
            ((root matches Edge::Terminal(_) || vars matches Edge::Terminal(_)) ==> r == Ok::<
                Edge,
                OutOfMemory,
            >(root) && *final(manager) == *old(manager)),
    {
        crate::quant::quant(manager, BinOp::And, root, vars)
    }

    /// Existential quantification over a variable set.
    pub fn exist_edge(manager: &mut Manager, root: Edge, vars: Edge) -> (r: Result<
        Edge,
        OutOfMemory,
    >)
        requires
            old(manager).inv(),
            edge_valid(old(manager).nodes(), root),
            edge_valid(old(manager).nodes(), vars),
            is_varset(old(manager).nodes(), vars),
        ensures
            final(manager).inv(),
            final(manager).extends(*old(manager)),
            final(manager).levels == old(manager).levels,
            match r {
                Ok(h) => {
                    &&& edge_valid(final(manager).nodes(), h)
                    &&& forall|a: Map<u32, bool>| #[trigger] evals(final(manager).nodes(), h, a)
                        == quant_eval(old(manager).nodes(), BinOp::Or, root, vars, a)
                },
                Err(_) => final(manager).nodes().len() == final(manager).store_cap,
            },
            ((root matches Edge::Terminal(_) || vars matches Edge::Terminal(_)) ==> r == Ok::<
                Edge,
                OutOfMemory,
            >(root) && *final(manager) == *old(manager)),
    {
        crate::quant::quant(manager, BinOp::Or, root, vars)
    }

    /// Unique quantification over a variable set.
    pub fn unique_edge(manager: &mut Manager, root: Edge, vars: Edge) -> (r: Result<
        Edge,
        OutOfMemory,
    >)
        requires
            old(manager).inv(),
            edge_valid(old(manager).nodes(), root),
            edge_valid(old(manager).nodes(), vars),
            is_varset(old(manager).nodes(), vars),
        ensures
            final(manager).inv(),
            final(manager).extends(*old(manager)),
            final(manager).levels == old(manager).levels,
            match r {
                Ok(h) => {
                    &&& edge_valid(final(manager).nodes(), h)
                    &&& forall|a: Map<u32, bool>| #[trigger] evals(final(manager).nodes(), h, a)
                        == quant_eval(old(manager).nodes(), BinOp::Xor, root, vars, a)
                },
                Err(_) => final(manager).nodes().len() == final(manager).store_cap,
            },
            (vars matches Edge::Terminal(_) ==> r == Ok::<Edge, OutOfMemory>(root)
                && *final(manager) == *old(manager)),
            (((vars matches Edge::Inner(_)) && edge_level(old(manager).nodes(), vars) < edge_level(
                old(manager).nodes(),
                root,
            )) ==> r == Ok::<Edge, OutOfMemory>(Edge::Terminal(false)) && *final(manager) == *old(
                manager,
            )),
    {
        crate::quant::quant(manager, BinOp::Xor, root, vars)
    }

    /// Substitute variables by replacement functions in one step: prepare
    /// the pairs and substitute through the edge.
    pub fn substitute_edge(manager: &mut Manager, edge: Edge, pairs: &Vec<(Edge, Edge)>) -> (r:
        Result<Edge, OutOfMemory>)
        requires
            old(manager).inv(),
            edge_valid(old(manager).nodes(), edge),
            forall|k: int|
                0 <= k < pairs@.len() ==> ((#[trigger] pairs@[k]).0 matches Edge::Inner(_))
                    && edge_valid(old(manager).nodes(), pairs@[k].0) && edge_valid(
                    old(manager).nodes(),
                    pairs@[k].1,
                ),
            forall|k1: int, k2: int|
                0 <= k1 < pairs@.len() && 0 <= k2 < pairs@.len() && k1 != k2 ==> edge_level(
                    old(manager).nodes(),
                    (#[trigger] pairs@[k1]).0,
                ) != edge_level(old(manager).nodes(), (#[trigger] pairs@[k2]).0),
        ensures
            final(manager).inv(),
            final(manager).extends(*old(manager)),
            final(manager).levels == old(manager).levels,
            match r {
                Ok(h) => {
                    &&& edge_valid(final(manager).nodes(), h)
                    &&& forall|a: Map<u32, bool>| #[trigger] evals(final(manager).nodes(), h, a)
                        == evals(
                        old(manager).nodes(),
                        edge,
                        pairs_assign(old(manager).nodes(), pairs@, a),
                    )
                },
                Err(_) => final(manager).nodes().len() == final(manager).store_cap || old(
                    manager,
                ).subst_counter == 0xFFFF_FFFF_FFFF_FFFFu64,
            },
    {
        let ghost m0 = *manager;
        let s = match substitute_prepare(manager, pairs) {
            Ok(s) => s,
            Err(oom) => {
                return Err(oom);
            },
        };
        let ghost m1 = *manager;
        proof {
            lemma_edge_preserved(m0, m1, edge);
        }
        let r = substitute(manager, edge, &s);
        let ghost m2 = *manager;
        proof {
            lemma_extends_trans(m0, m1, m2);
        }
        match r {
            Ok(h) => {
                proof {
                    let ghost reps = s.replacements@;
                    assert forall|a: Map<u32, bool>| #[trigger] evals(m2.nodes(), h, a) == evals(
                        m0.nodes(),
                        edge,
                        pairs_assign(m0.nodes(), pairs@, a),
                    ) by {
                        let la = subst_lift(m1.nodes(), reps, a);
                        let pa = pairs_assign(m0.nodes(), pairs@, a);
                        assert(evals(m2.nodes(), h, a) == evals(m1.nodes(), edge, la));
                        assert forall|l: u32| la[l] == pa[l] by {
                            if (l as int) < reps.len() {
                                if level_mapped(m0.nodes(), pairs@, l as int) {
                                    assert(pair_rep(m0.nodes(), pairs@, l as int, reps[l as int]));
                                    let k1 = choose|k1: int|
                                        0 <= k1 < pairs@.len() && edge_level(
                                            m0.nodes(),
                                            (#[trigger] pairs@[k1]).0,
                                        ) == l as int && reps[l as int] == pairs@[k1].1;
                                    let k2 = choose|k2: int|
                                        0 <= k2 < pairs@.len() && edge_level(
                                            m0.nodes(),
                                            (#[trigger] pairs@[k2]).0,
                                        ) == l as int;
                                    assert(k1 == k2);
                                    assert(rep_at(m0.nodes(), pairs@, l as int) == reps[l as int]);
                                    lemma_edge_preserved(m0, m1, reps[l as int]);
                                } else {
                                    assert(evals(m1.nodes(), reps[l as int], a) == a[l]);
                                }
                            } else {
                                if level_mapped(m0.nodes(), pairs@, l as int) {
                                    let kw = choose|kw: int|
                                        0 <= kw < pairs@.len() && edge_level(
                                            m0.nodes(),
                                            (#[trigger] pairs@[kw]).0,
                                        ) == l as int;
                                    assert(edge_level(m0.nodes(), pairs@[kw].0) < reps.len());
                                    assert(false);
                                }
                            }
                        }
                        assert(la =~= pa);
                        assert(evals(m1.nodes(), edge, pa) == evals(m0.nodes(), edge, pa));
                    }
                }
                Ok(h)
            },
            Err(oom) => Err(oom),
        }
    }

    /// The number of assignments of `vars` variables satisfying the edge,
    /// memoizing per node in the caller-supplied table.
    pub fn sat_count_edge(
        manager: &Manager,
        edge: Edge,
        vars: u32,
        cache: &mut crate::analysis::SatCountCache,
    ) -> (c: u64)
        requires
            manager.inv(),
            edge_valid(manager.nodes(), edge),
            manager.levels <= vars,
            vars <= 63,
            old(cache).ok(*manager),
        ensures
            final(cache).ok(*manager),
            c as nat == crate::semantics::count_sat(manager.nodes(), edge, 0, vars as int),
    {
        crate::analysis::sat_count_edge(manager, edge, vars, cache)
    }

    /// Pick a satisfying cube; see [`crate::analysis::pick_cube_edge`].
    pub fn pick_cube_edge<C: PickChoice>(
        manager: &Manager,
        edge: Edge,
        order: &Vec<Edge>,
        choice: &mut C,
    ) -> (r: Option<Vec<OptBool>>)
        requires
            manager.inv(),
            edge_valid(manager.nodes(), edge),
            order@.len() == 0 || order@.len() == manager.levels as int,
            forall|k: int|
                0 <= k < order@.len() ==> ((#[trigger] order@[k]) matches Edge::Inner(_))
                    && edge_valid(manager.nodes(), order@[k]),
        ensures
            (r is Some) <==> edge != Edge::Terminal(false),
            match r {
                Some(c) => picked_cube_ok(
                    *manager,
                    edge,
                    crate::analysis::choice_fn(*old(choice), *manager),
                    order@,
                    c@,
                ),
                None => true,
            },
            forall|m2: Manager, e2: Edge| #[trigger] final(choice).spec_pick(m2, e2) == old(
                choice,
            ).spec_pick(m2, e2),
    {
        crate::analysis::pick_cube_edge(manager, edge, order, choice)
    }

    /// Evaluate the edge under the assignment described by the pairs.
    pub fn eval_edge(manager: &Manager, edge: Edge, args: &Vec<(Edge, bool)>) -> (r: bool)
        requires
            manager.inv(),
            edge_valid(manager.nodes(), edge),
            forall|k: int|
                0 <= k < args@.len() ==> ((#[trigger] args@[k]).0 matches Edge::Inner(_))
                    && edge_valid(manager.nodes(), args@[k].0),
        ensures
            r == evals(
                manager.nodes(),
                edge,
                crate::analysis::assign_map(manager.nodes(), args@),
            ),
    {
        crate::analysis::eval_edge(manager, edge, args)
    }
}

} // verus!
