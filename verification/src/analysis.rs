//! Analyses that read a diagram without creating nodes: satisfaction
//! counting, cube picking and evaluation under a total assignment.

use vstd::prelude::*;
use crate::types::{BddNode, Edge, OptBool};
use crate::manager::Manager;
use crate::bits::{bit_vec_bits, bits_get, bits_new, bits_resize, bits_set, BitBuffer};
use crate::semantics::{
    count_sat, edge_level, edge_rank, edge_valid, evals, lemma_count_sat_bound, node_wf, nodes_wf,
};

verus! {

/// The level of the node an argument edge refers to.
pub open spec fn arg_level(nodes: Seq<BddNode>, e: Edge) -> u32 {
    match e {
        Edge::Inner(i) => if i < nodes.len() {
            nodes[i as int].level
        } else {
            0
        },
        Edge::Terminal(_) => 0,
    }
}

/// The total assignment described by a list of `(variable, value)` pairs:
/// every level starts at `false`, and later pairs overwrite earlier ones.
pub open spec fn assign_map(nodes: Seq<BddNode>, args: Seq<(Edge, bool)>) -> Map<u32, bool>
    decreases args.len(),
{
    if args.len() == 0 {
        Map::total(|l: u32| false)
    } else {
        assign_map(nodes, args.drop_last()).insert(arg_level(nodes, args.last().0), args.last().1)
    }
}

/// The assignment `a` respects every forced entry of the cube.
pub open spec fn cube_fits(c: Seq<OptBool>, a: Map<u32, bool>) -> bool {
    forall|l: int|
        0 <= l < c.len() ==> match #[trigger] c[l] {
            OptBool::True => a[l as u32],
            OptBool::False => !a[l as u32],
            OptBool::DontCare => true,
        }
}

/// A caller-supplied choice of branch for cube picking, consulted at every
/// node where neither branch is forced. The choice may keep state for its
/// own bookkeeping, but the branch it would take at a node is a function of
/// the manager and the node alone, named by [`PickChoice::spec_pick`] and
/// stable across calls, so that the picked cube is determined by the
/// diagram and the choice.
pub trait PickChoice {
    /// The branch this choice takes at the node `at` points to: `true` for
    /// the then-branch, `false` for the else-branch.
    spec fn spec_pick(&self, manager: Manager, at: Edge) -> bool;

    /// Choose a branch at the node `at` points to.
    fn pick(&mut self, manager: &Manager, at: Edge) -> (r: bool)
        ensures
            r == old(self).spec_pick(*manager, at),
            forall|m2: Manager, e2: Edge| #[trigger] final(self).spec_pick(m2, e2) == old(
                self,
            ).spec_pick(m2, e2),
    ;
}

/// A choice that always takes the same branch.
pub struct ConstChoice {
    pub value: bool,
}

impl PickChoice for ConstChoice {
    open spec fn spec_pick(&self, manager: Manager, at: Edge) -> bool {
        self.value
    }

    fn pick(&mut self, manager: &Manager, at: Edge) -> (r: bool) {
        self.value
    }
}

/// The decision function a choice value embodies on one manager.
pub open spec fn choice_fn<C: PickChoice>(c: C, m: Manager) -> spec_fn(Edge) -> bool {
    |e: Edge| c.spec_pick(m, e)
}

/// The exact cube the picking walk produces, starting from `cube`: at each
/// node the branch is forced away from the `false` terminal where one child
/// is that terminal, and `cf` decides where neither is; the branch taken is
/// recorded at the node's level, and no other entry is touched.
pub open spec fn walk_cube(
    nodes: Seq<BddNode>,
    f: Edge,
    cf: spec_fn(Edge) -> bool,
    cube: Seq<OptBool>,
) -> Seq<OptBool>
    decreases edge_rank(f)
    when nodes_wf(nodes) && edge_valid(nodes, f)
{
    match f {
        Edge::Terminal(_) => cube,
        Edge::Inner(i) => {
            proof {
                assert(node_wf(nodes, i as int));
            }
            let n = nodes[i as int];
            let c = if n.then_child == Edge::Terminal(false) {
                false
            } else if n.else_child == Edge::Terminal(false) {
                true
            } else {
                cf(f)
            };
            let child = if c {
                n.then_child
            } else {
                n.else_child
            };
            walk_cube(
                nodes,
                child,
                cf,
                cube.update(n.level as int, if c {
                    OptBool::True
                } else {
                    OptBool::False
                }),
            )
        },
    }
}

/// What a picked cube is, exactly: the cube of the walk from `f` over an
/// all-don't-care start — so the `true` terminal yields the all-don't-care
/// cube, forced branches point away from the `false` terminal, and levels
/// off the walked path stay don't-care — every completion of which
/// satisfies `f`. With an explicit order, the same cube listed in the order
/// of the given variables.
pub open spec fn picked_cube_ok(
    m: Manager,
    f: Edge,
    cf: spec_fn(Edge) -> bool,
    order: Seq<Edge>,
    c: Seq<OptBool>,
) -> bool {
    let nat_c = walk_cube(m.nodes(), f, cf, Seq::new(m.levels as nat, |j: int| OptBool::DontCare));
    &&& (forall|a: Map<u32, bool>| cube_fits(nat_c, a) ==> #[trigger] evals(m.nodes(), f, a))
    &&& if order.len() == 0 {
        c == nat_c
    } else {
        c.len() == order.len() && (forall|k: int|
            0 <= k < c.len() ==> #[trigger] c[k] == nat_c[arg_level(m.nodes(), order[k]) as int])
    }
}

/// `pow2(k)` as a machine word.
fn pow2_u64(k: u32) -> (r: u64)
    requires
        k <= 63,
    ensures
        r as nat == vstd::arithmetic::power2::pow2(k as nat),
    decreases 0int,
{
    let mut r: u64 = 1;
    let mut j: u32 = 0;
    proof {
        vstd::arithmetic::power2::lemma2_to64();
        vstd::arithmetic::power2::lemma2_to64_rest();
    }
    while j < k
        invariant
            j <= k,
            k <= 63,
            r as nat == vstd::arithmetic::power2::pow2(j as nat),
        decreases k - j,
    {
        proof {
            vstd::arithmetic::power2::lemma2_to64();
            vstd::arithmetic::power2::lemma2_to64_rest();
            if (j + 1) < 63 {
                vstd::arithmetic::power2::lemma_pow2_strictly_increases((j + 1) as nat, 63);
            }
            vstd::arithmetic::power2::lemma_pow2_unfold((j + 1) as nat);
        }
        r = r * 2;
        j = j + 1;
    }
    r
}

/// `pow2(k)` stays within a 64-bit word for `k <= 63`, and within half a
/// word one exponent earlier.
proof fn lemma_pow2_word(k: nat)
    requires
        k <= 63,
    ensures
        vstd::arithmetic::power2::pow2(k) <= 0x8000_0000_0000_0000,
        k <= 62 ==> vstd::arithmetic::power2::pow2(k) <= 0x4000_0000_0000_0000,
{
    vstd::arithmetic::power2::lemma2_to64();
    vstd::arithmetic::power2::lemma2_to64_rest();
    if k < 62 {
        vstd::arithmetic::power2::lemma_pow2_strictly_increases(k, 62);
    }
    if k < 63 {
        vstd::arithmetic::power2::lemma_pow2_strictly_increases(k, 63);
    }
}

/// A caller-supplied memo table for satisfaction counting: one slot per
/// node of the store, each holding the node's count at its own level. The
/// table is invalidated whenever the variable count changes or the store
/// has grown since it was filled.
pub struct SatCountCache {
    /// The variable count the entries were computed for.
    pub vars: u32,
    /// One slot per node index of the store the entries belong to.
    pub map: Vec<Option<u64>>,
}

impl SatCountCache {
    /// Every present entry is the count of its node, at the node's own
    /// level, for this table's variable count. A table whose slot count
    /// does not match the store is stale and says nothing.
    pub open spec fn ok(self, m: Manager) -> bool {
        self.map@.len() == m.nodes().len() ==> forall|i: int|
            0 <= i < self.map@.len() ==> ((#[trigger] self.map@[i]) matches Some(v) ==> v as nat
                == count_sat(
                m.nodes(),
                Edge::Inner(i as usize),
                m.nodes()[i].level as int,
                self.vars as int,
            ))
    }

    /// An empty memo table.
    pub fn new() -> (c: SatCountCache)
        ensures
            forall|m: Manager| #[trigger] c.ok(m),
            c.map@.len() == 0,
    {
        SatCountCache { vars: 0, map: Vec::new() }
    }
}

/// The recursive counting walk: the count of each inner node at its own
/// level is computed once and memoized per node identity; counting from an
/// earlier level scales it by one factor of two per skipped level.
fn sat_count_rec(
    manager: &Manager,
    e: Edge,
    lvl: u32,
    nvars: u32,
    cache: &mut SatCountCache,
) -> (c: u64)
    requires
        manager.inv(),
        edge_valid(manager.nodes(), e),
        manager.levels <= nvars,
        nvars <= 63,
        lvl <= nvars,
        lvl as int <= edge_level(manager.nodes(), e),
        old(cache).vars == nvars,
        old(cache).map@.len() == manager.nodes().len(),
        old(cache).ok(*manager),
    ensures
        final(cache).vars == nvars,
        final(cache).map@.len() == manager.nodes().len(),
        final(cache).ok(*manager),
        c as nat == count_sat(manager.nodes(), e, lvl as int, nvars as int),
    decreases edge_rank(e),
{
    match e {
        Edge::Terminal(b) => {
            if b {
                pow2_u64(nvars - lvl)
            } else {
                0
            }
        },
        Edge::Inner(i) => {
            let n = manager.node_at(i);
            proof {
                assert(node_wf(manager.nodes(), i as int));
                assert(n.level < nvars);
            }
            let v: u64 = match cache.map[i] {
                Some(v) => v,
                None => {
                    let ct = sat_count_rec(manager, n.then_child, n.level + 1, nvars, cache);
                    let ce = sat_count_rec(manager, n.else_child, n.level + 1, nvars, cache);
                    proof {
                        lemma_count_sat_bound(
                            manager.nodes(),
                            n.then_child,
                            n.level as int + 1,
                            nvars as int,
                        );
                        lemma_count_sat_bound(
                            manager.nodes(),
                            n.else_child,
                            n.level as int + 1,
                            nvars as int,
                        );
                        lemma_pow2_word((nvars - n.level - 1) as nat);
                    }
                    let v = ct + ce;
                    cache.map.set(i, Some(v));
                    v
                },
            };
            proof {
                assert(v as nat == count_sat(
                    manager.nodes(),
                    e,
                    n.level as int,
                    nvars as int,
                ));
                crate::semantics::lemma_count_sat_scale(
                    manager.nodes(),
                    e,
                    lvl as int,
                    n.level as int,
                    nvars as int,
                );
                lemma_count_sat_bound(manager.nodes(), e, lvl as int, nvars as int);
                lemma_pow2_word((nvars - lvl) as nat);
            }
            let scale = pow2_u64(n.level - lvl);
            scale * v
        },
    }
}

/// The number of assignments of `nvars` variables under which `f` holds.
/// The variable count must cover every level of the manager, and is capped
/// so that the count fits a 64-bit word. The memo table is reused across
/// calls and invalidated when the variable count changes or the store has
/// grown.
#[verifier::loop_isolation(false)]
pub fn sat_count_edge(manager: &Manager, f: Edge, nvars: u32, cache: &mut SatCountCache) -> (c:
    u64)
    requires
        manager.inv(),
        edge_valid(manager.nodes(), f),
        manager.levels <= nvars,
        nvars <= 63,
        old(cache).ok(*manager),
    ensures
        final(cache).ok(*manager),
        c as nat == count_sat(manager.nodes(), f, 0, nvars as int),
{
    if cache.vars != nvars || cache.map.len() != manager.node_count() {
        let mut fresh: Vec<Option<u64>> = Vec::new();
        let nn = manager.node_count();
        while fresh.len() < nn
            invariant
                fresh@.len() <= nn,
                forall|i: int| 0 <= i < fresh@.len() ==> (#[trigger] fresh@[i]) is None,
            decreases nn - fresh@.len(),
        {
            fresh.push(None);
        }
        cache.vars = nvars;
        cache.map = fresh;
    }
    sat_count_rec(manager, f, 0, nvars, cache)
}

/// Evaluate `f` under the total assignment described by `args`: pairs of a
/// variable edge and its value, unnamed variables being `false`.
#[verifier::loop_isolation(false)]
pub fn eval_edge(manager: &Manager, f: Edge, args: &Vec<(Edge, bool)>) -> (r: bool)
    requires
        manager.inv(),
        edge_valid(manager.nodes(), f),
        forall|k: int|
            0 <= k < args@.len() ==> ((#[trigger] args@[k]).0 matches Edge::Inner(_)) && edge_valid(
                manager.nodes(),
                args@[k].0,
            ),
    ensures
        r == evals(manager.nodes(), f, assign_map(manager.nodes(), args@)),
{
    let ghost amap = assign_map(manager.nodes(), args@);
    let nl = manager.num_levels() as usize;
    let mut values: BitBuffer = bits_new();
    bits_resize(&mut values, nl, false);
    proof {
        assert(bit_vec_bits(values) =~= Seq::new(nl as nat, |k: int| false));
    }
    let mut k: usize = 0;
    while k < args.len()
        invariant
            k <= args@.len(),
            bit_vec_bits(values).len() == manager.levels as int,
            forall|l: u32|
                (l as int) < manager.levels as int ==> bit_vec_bits(values)[l as int]
                    == assign_map(manager.nodes(), args@.subrange(0, k as int))[l],
        decreases args@.len() - k,
    {
        let (v, val) = args[k];
        let i = match v {
            Edge::Inner(i) => i,
            Edge::Terminal(_) => {
                proof {
                    assert(false);
                }
                0
            },
        };
        let lvl = manager.node_at(i).level;
        proof {
            assert(node_wf(manager.nodes(), i as int));
            assert(manager.nodes()[i as int].level < manager.levels);
        }
        bits_set(&mut values, lvl as usize, val);
        proof {
            let pre = args@.subrange(0, k as int);
            let post = args@.subrange(0, k as int + 1);
            assert(post.drop_last() =~= pre);
            assert(post.last() == args@[k as int]);
            assert(assign_map(manager.nodes(), post) == assign_map(manager.nodes(), pre).insert(
                lvl,
                val,
            ));
        }
        k += 1;
    }
    proof {
        assert(args@.subrange(0, args@.len() as int) =~= args@);
    }
    // walk the diagram, following the assignment at each tested level
    let mut cur = f;
    loop
        invariant
            edge_valid(manager.nodes(), cur),
            evals(manager.nodes(), cur, amap) == evals(manager.nodes(), f, amap),
        decreases edge_rank(cur),
    {
        let i = match cur {
            Edge::Terminal(b) => {
                return b;
            },
            Edge::Inner(i) => i,
        };
        let n = manager.node_at(i);
        proof {
            assert(node_wf(manager.nodes(), i as int));
            assert(n.level < manager.levels);
        }
        let b = bits_get(&values, n.level as usize);
        proof {
            assert(b == amap[n.level]);
        }
        cur = if b {
            n.then_child
        } else {
            n.else_child
        };
    }
}

/// The descending walk of cube picking: force the branch away from the
/// `false` terminal where one is forced, otherwise consult the choice. The
/// cube produced is exactly [`walk_cube`] of the choice's decision function.
fn pick_rec<C: PickChoice>(manager: &Manager, f: Edge, cube: &mut Vec<OptBool>, choice: &mut C)
    requires
        manager.inv(),
        edge_valid(manager.nodes(), f),
        f != Edge::Terminal(false),
        old(cube)@.len() == manager.levels as int,
    ensures
        final(cube)@.len() == old(cube)@.len(),
        final(cube)@ == walk_cube(
            manager.nodes(),
            f,
            choice_fn(*old(choice), *manager),
            old(cube)@,
        ),
        forall|l: int|
            0 <= l < old(cube)@.len() && l < edge_level(manager.nodes(), f)
                ==> final(cube)@[l] == old(cube)@[l],
        forall|m2: Manager, e2: Edge| #[trigger] final(choice).spec_pick(m2, e2) == old(
            choice,
        ).spec_pick(m2, e2),
        forall|a: Map<u32, bool>|
            cube_fits(final(cube)@, a) ==> #[trigger] evals(manager.nodes(), f, a),
    decreases edge_rank(f),
{
    let ghost c0 = *choice;
    let i = match f {
        Edge::Terminal(_) => {
            return ;
        },
        Edge::Inner(i) => i,
    };
    let n = manager.node_at(i);
    proof {
        assert(node_wf(manager.nodes(), i as int));
        assert(n.level < manager.levels);
    }
    let c: bool = if n.then_child == Edge::Terminal(false) {
        false
    } else if n.else_child == Edge::Terminal(false) {
        true
    } else {
        choice.pick(manager, f)
    };
    let child = if c {
        n.then_child
    } else {
        n.else_child
    };
    proof {
        assert(child != Edge::Terminal(false));
    }
    cube.set(n.level as usize, if c {
        OptBool::True
    } else {
        OptBool::False
    });
    let ghost mid = cube@;
    let ghost c1 = *choice;
    pick_rec(manager, child, cube, choice);
    proof {
        assert forall|e2: Edge| #[trigger] choice_fn(c1, *manager)(e2) == choice_fn(
            c0,
            *manager,
        )(e2) by {
            assert(c1.spec_pick(*manager, e2) == c0.spec_pick(*manager, e2));
        }
        assert(choice_fn(c1, *manager) =~= choice_fn(c0, *manager));
        assert(cube@ == walk_cube(manager.nodes(), child, choice_fn(c0, *manager), mid));
        assert(mid == old(cube)@.update(n.level as int, if c {
            OptBool::True
        } else {
            OptBool::False
        }));
        if n.then_child != Edge::Terminal(false) && n.else_child != Edge::Terminal(false) {
            assert(c == choice_fn(c0, *manager)(f));
        }
        assert(cube@ == walk_cube(manager.nodes(), f, choice_fn(c0, *manager), old(cube)@));
        assert(cube@[n.level as int] == mid[n.level as int]);
        assert forall|a: Map<u32, bool>| cube_fits(cube@, a) implies #[trigger] evals(
            manager.nodes(),
            f,
            a,
        ) by {
            assert(cube@[n.level as int] == if c {
                OptBool::True
            } else {
                OptBool::False
            });
            assert(a[n.level] == c);
            assert(evals(manager.nodes(), f, a) == if a[n.level] {
                evals(manager.nodes(), n.then_child, a)
            } else {
                evals(manager.nodes(), n.else_child, a)
            });
        }
    }
}

/// Pick a satisfying cube of `f`: `None` exactly for the `false` terminal,
/// otherwise exactly the cube of the walk from `f` under the given choice —
/// every completion of it satisfies `f`, the `true` terminal yields the
/// all-don't-care cube, and levels off the walked path stay don't-care.
/// An empty `order` yields the cube indexed by level; otherwise `order`
/// must name all variables, and the same cube is listed in that order.
#[verifier::rlimit(60)]
pub fn pick_cube_edge<C: PickChoice>(
    manager: &Manager,
    f: Edge,
    order: &Vec<Edge>,
    choice: &mut C,
) -> (r: Option<Vec<OptBool>>)
    requires
        manager.inv(),
        edge_valid(manager.nodes(), f),
        order@.len() == 0 || order@.len() == manager.levels as int,
        forall|k: int|
            0 <= k < order@.len() ==> ((#[trigger] order@[k]) matches Edge::Inner(_)) && edge_valid(
                manager.nodes(),
                order@[k],
            ),
    ensures
        (r is Some) <==> f != Edge::Terminal(false),
        match r {
            Some(c) => picked_cube_ok(*manager, f, choice_fn(*old(choice), *manager), order@, c@),
            None => true,
        },
        forall|m2: Manager, e2: Edge| #[trigger] final(choice).spec_pick(m2, e2) == old(
            choice,
        ).spec_pick(m2, e2),
{
    let ghost cf = choice_fn(*choice, *manager);
    if f == Edge::Terminal(false) {
        return None;
    }
    let nl = manager.num_levels() as usize;
    let mut cube: Vec<OptBool> = Vec::new();
    let mut j: usize = 0;
    while j < nl
        invariant
            j <= nl,
            cube@.len() == j,
            forall|j2: int| 0 <= j2 < j ==> (#[trigger] cube@[j2]) == OptBool::DontCare,
        decreases nl - j,
    {
        cube.push(OptBool::DontCare);
        j += 1;
    }
    proof {
        assert(cube@ =~= Seq::new(manager.levels as nat, |j2: int| OptBool::DontCare));
    }
    pick_rec(manager, f, &mut cube, choice);
    proof {
        assert(cube@ == walk_cube(
            manager.nodes(),
            f,
            cf,
            Seq::new(manager.levels as nat, |j2: int| OptBool::DontCare),
        ));
        assert(cube@.len() == manager.levels as int);
        assert(forall|a: Map<u32, bool>|
            cube_fits(cube@, a) ==> #[trigger] evals(manager.nodes(), f, a));
    }
    if order.len() == 0 {
        proof {
            assert(picked_cube_ok(*manager, f, cf, order@, cube@));
        }
        Some(cube)
    } else {
        let mut out: Vec<OptBool> = Vec::new();
        let mut k: usize = 0;
        while k < order.len()
            invariant
                manager.inv(),
                k <= order@.len(),
                out@.len() == k,
                cube@.len() == manager.levels as int,
                forall|k2: int|
                    0 <= k2 < order@.len() ==> ((#[trigger] order@[k2]) matches Edge::Inner(_))
                        && edge_valid(manager.nodes(), order@[k2]),
                forall|k2: int|
                    0 <= k2 < k ==> #[trigger] out@[k2] == cube@[arg_level(
                        manager.nodes(),
                        order@[k2],
                    ) as int],
            decreases order@.len() - k,
        {
            let i = match order[k] {
                Edge::Inner(i) => i,
                Edge::Terminal(_) => {
                    proof {
                        assert(false);
                    }
                    0
                },
            };
            let lvl = manager.node_at(i).level;
            proof {
                assert(node_wf(manager.nodes(), i as int));
                assert(manager.nodes()[i as int].level < manager.levels);
            }
            out.push(cube[lvl as usize]);
            k += 1;
        }
        proof {
            assert(picked_cube_ok(*manager, f, cf, order@, out@));
        }
        Some(out)
    }
}

} // verus!
