use bdd_engine::analysis::{ConstChoice, SatCountCache};
use bdd_engine::function::BDDFunction;
use bdd_engine::manager::Manager;
use bdd_engine::types::{Edge, OptBool, OutOfMemory};

fn setup(n: u32) -> (Manager, Vec<Edge>) {
    let mut m = Manager::new(1024, 1024);
    let mut vars = Vec::new();
    for _ in 0..n {
        vars.push(m.new_var().unwrap());
    }
    (m, vars)
}

#[test]
fn terminals_are_unique() {
    let (m, _) = setup(0);
    assert_eq!(m.t_edge(), Edge::Terminal(true));
    assert_eq!(m.f_edge(), Edge::Terminal(false));
    assert_eq!(m.t_edge(), m.t_edge());
    assert_ne!(m.t_edge(), m.f_edge());
}

#[test]
fn clone_is_identity() {
    let (mut m, vars) = setup(2);
    let f = BDDFunction::and_edge(&mut m, vars[0], vars[1]).unwrap();
    assert_eq!(m.clone_edge(&f), f);
    assert_eq!(m.clone_edge(&vars[0]), vars[0]);
    assert_eq!(m.clone_edge(&m.t_edge()), m.t_edge());
}

#[test]
fn tautology() {
    let (mut m, vars) = setup(1);
    let nx0 = BDDFunction::not_edge(&mut m, vars[0]).unwrap();
    let taut = BDDFunction::or_edge(&mut m, vars[0], nx0).unwrap();
    assert_eq!(taut, m.t_edge());
    assert_eq!(BDDFunction::sat_count_edge(&m, taut, 1, &mut SatCountCache::new()), 2);
}

#[test]
fn contradiction() {
    let (mut m, vars) = setup(1);
    let nx0 = BDDFunction::not_edge(&mut m, vars[0]).unwrap();
    let contra = BDDFunction::and_edge(&mut m, vars[0], nx0).unwrap();
    assert_eq!(contra, m.f_edge());
    assert_eq!(BDDFunction::sat_count_edge(&m, contra, 1, &mut SatCountCache::new()), 0);
}

/// Builds `or(and(x4, not(and(x0, x1))), and(not(x4), xor(x2, x3)))`.
fn composite(m: &mut Manager, vars: &[Edge]) -> Edge {
    let x0x1 = BDDFunction::and_edge(m, vars[0], vars[1]).unwrap();
    let g = BDDFunction::not_edge(m, x0x1).unwrap();
    let p = BDDFunction::xor_edge(m, vars[2], vars[3]).unwrap();
    let lhs = BDDFunction::and_edge(m, vars[4], g).unwrap();
    let nx4 = BDDFunction::not_edge(m, vars[4]).unwrap();
    let rhs = BDDFunction::and_edge(m, nx4, p).unwrap();
    BDDFunction::or_edge(m, lhs, rhs).unwrap()
}

#[test]
fn composite_sat_count() {
    let (mut m, vars) = setup(5);
    let f = composite(&mut m, &vars);
    // 16 assignments with x4 true and not both x0, x1 true give 3 * 4 = 12;
    // 16 assignments with x4 false and x2 /= x3 give 2 * 4 = 8
    assert_eq!(BDDFunction::sat_count_edge(&m, f, 5, &mut SatCountCache::new()), 20);
}

#[test]
fn restriction_recovers_branch() {
    let (mut m, vars) = setup(5);
    let f = composite(&mut m, &vars);
    let x0x1 = BDDFunction::and_edge(&mut m, vars[0], vars[1]).unwrap();
    let g = BDDFunction::not_edge(&mut m, x0x1).unwrap();
    // the cube fixing x4 to true is the variable edge itself
    let restricted = BDDFunction::restrict_edge(&mut m, f, vars[4]).unwrap();
    assert_eq!(restricted, g);
}

#[test]
fn quantification() {
    let (mut m, vars) = setup(2);
    let conj = BDDFunction::and_edge(&mut m, vars[0], vars[1]).unwrap();
    let ex = BDDFunction::exist_edge(&mut m, conj, vars[0]).unwrap();
    assert_eq!(ex, vars[1]);
    let disj = BDDFunction::or_edge(&mut m, vars[0], vars[1]).unwrap();
    let fa = BDDFunction::forall_edge(&mut m, disj, vars[0]).unwrap();
    assert_eq!(fa, vars[1]);
    let x = BDDFunction::xor_edge(&mut m, vars[0], vars[1]).unwrap();
    let un = BDDFunction::unique_edge(&mut m, x, vars[0]).unwrap();
    assert_eq!(un, m.t_edge());
}

#[test]
fn substitution_by_node_identity() {
    let (mut m, vars) = setup(3);
    let f = BDDFunction::and_edge(&mut m, vars[0], vars[1]).unwrap();
    let pairs = vec![(vars[0], vars[2])];
    let substituted = BDDFunction::substitute_edge(&mut m, f, &pairs).unwrap();
    let expected = BDDFunction::and_edge(&mut m, vars[2], vars[1]).unwrap();
    assert_eq!(substituted, expected);
}

#[test]
fn substitution_of_unused_variable_is_identity() {
    let (mut m, vars) = setup(4);
    let f = BDDFunction::and_edge(&mut m, vars[0], vars[1]).unwrap();
    let pairs = vec![(vars[2], vars[3])];
    let substituted = BDDFunction::substitute_edge(&mut m, f, &pairs).unwrap();
    assert_eq!(substituted, f);
}

#[test]
fn cube_pick() {
    let (mut m, vars) = setup(5);
    let nx1 = BDDFunction::not_edge(&mut m, vars[1]).unwrap();
    let f = BDDFunction::and_edge(&mut m, vars[0], nx1).unwrap();
    let order: Vec<Edge> = Vec::new();
    let cube = BDDFunction::pick_cube_edge(&m, f, &order, &mut ConstChoice { value: false }).unwrap();
    assert_eq!(
        cube,
        vec![
            OptBool::True,
            OptBool::False,
            OptBool::DontCare,
            OptBool::DontCare,
            OptBool::DontCare,
        ]
    );
}

#[test]
fn cube_pick_consults_choice() {
    let (mut m, vars) = setup(2);
    let f = BDDFunction::or_edge(&mut m, vars[0], vars[1]).unwrap();
    let order: Vec<Edge> = Vec::new();
    let cube = BDDFunction::pick_cube_edge(&m, f, &order, &mut ConstChoice { value: false }).unwrap();
    assert_eq!(cube, vec![OptBool::False, OptBool::True]);
    let taken = BDDFunction::pick_cube_edge(&m, f, &order, &mut ConstChoice { value: true }).unwrap();
    assert_eq!(taken, vec![OptBool::True, OptBool::DontCare]);
}

#[test]
fn cube_pick_terminals_and_order() {
    let (mut m, vars) = setup(2);
    let order: Vec<Edge> = Vec::new();
    assert!(BDDFunction::pick_cube_edge(&m, m.f_edge(), &order, &mut ConstChoice { value: false }).is_none());
    let all_free = BDDFunction::pick_cube_edge(&m, m.t_edge(), &order, &mut ConstChoice { value: false }).unwrap();
    assert_eq!(all_free, vec![OptBool::DontCare, OptBool::DontCare]);
    let nx1 = BDDFunction::not_edge(&mut m, vars[1]).unwrap();
    let f = BDDFunction::and_edge(&mut m, vars[0], nx1).unwrap();
    let reversed = vec![vars[1], vars[0]];
    let cube = BDDFunction::pick_cube_edge(&m, f, &reversed, &mut ConstChoice { value: false }).unwrap();
    assert_eq!(cube, vec![OptBool::False, OptBool::True]);
}

#[test]
fn eval_ite() {
    let (mut m, vars) = setup(3);
    let f = BDDFunction::ite_edge(&mut m, vars[0], vars[1], vars[2]).unwrap();
    let args = vec![(vars[0], true), (vars[1], false), (vars[2], true)];
    assert_eq!(BDDFunction::eval_edge(&m, f, &args), false);
}

#[test]
fn eval_reads_assignment() {
    let (m, vars) = {
        let (mut m, vars) = setup(2);
        let _ = BDDFunction::and_edge(&mut m, vars[0], vars[1]).unwrap();
        (m, vars)
    };
    assert_eq!(BDDFunction::eval_edge(&m, vars[0], &vec![(vars[0], true)]), true);
    assert_eq!(BDDFunction::eval_edge(&m, vars[0], &Vec::new()), false);
    assert_eq!(BDDFunction::eval_edge(&m, vars[1], &vec![(vars[0], true)]), false);
}

#[test]
fn eval_consistency() {
    let (mut m, vars) = setup(3);
    let f = BDDFunction::ite_edge(&mut m, vars[0], vars[1], vars[2]).unwrap();
    for bits in 0..8u32 {
        let args = vec![
            (vars[0], bits & 1 != 0),
            (vars[1], bits & 2 != 0),
            (vars[2], bits & 4 != 0),
        ];
        let direct = if BDDFunction::eval_edge(&m, vars[0], &args) {
            BDDFunction::eval_edge(&m, vars[1], &args)
        } else {
            BDDFunction::eval_edge(&m, vars[2], &args)
        };
        assert_eq!(BDDFunction::eval_edge(&m, f, &args), direct);
    }
}

#[test]
fn not_involution() {
    let (mut m, vars) = setup(2);
    let f = BDDFunction::and_edge(&mut m, vars[0], vars[1]).unwrap();
    let nf = BDDFunction::not_edge(&mut m, f).unwrap();
    let nnf = BDDFunction::not_edge(&mut m, nf).unwrap();
    assert_eq!(nnf, f);
}

#[test]
fn idempotence_and_cancellation() {
    let (mut m, vars) = setup(2);
    let f = BDDFunction::xor_edge(&mut m, vars[0], vars[1]).unwrap();
    assert_eq!(BDDFunction::and_edge(&mut m, f, f).unwrap(), f);
    assert_eq!(BDDFunction::or_edge(&mut m, f, f).unwrap(), f);
    assert_eq!(BDDFunction::xor_edge(&mut m, f, f).unwrap(), m.f_edge());
}

#[test]
fn de_morgan() {
    let (mut m, vars) = setup(2);
    let lhs = BDDFunction::and_edge(&mut m, vars[0], vars[1]).unwrap();
    let nx0 = BDDFunction::not_edge(&mut m, vars[0]).unwrap();
    let nx1 = BDDFunction::not_edge(&mut m, vars[1]).unwrap();
    let disj = BDDFunction::or_edge(&mut m, nx0, nx1).unwrap();
    let rhs = BDDFunction::not_edge(&mut m, disj).unwrap();
    assert_eq!(lhs, rhs);
}

#[test]
fn equiv_is_not_xor() {
    let (mut m, vars) = setup(2);
    let lhs = BDDFunction::equiv_edge(&mut m, vars[0], vars[1]).unwrap();
    let x = BDDFunction::xor_edge(&mut m, vars[0], vars[1]).unwrap();
    let rhs = BDDFunction::not_edge(&mut m, x).unwrap();
    assert_eq!(lhs, rhs);
}

#[test]
fn ite_decomposition() {
    let (mut m, vars) = setup(3);
    let lhs = BDDFunction::ite_edge(&mut m, vars[0], vars[1], vars[2]).unwrap();
    let fg = BDDFunction::and_edge(&mut m, vars[0], vars[1]).unwrap();
    let nf = BDDFunction::not_edge(&mut m, vars[0]).unwrap();
    let nfh = BDDFunction::and_edge(&mut m, nf, vars[2]).unwrap();
    let rhs = BDDFunction::or_edge(&mut m, fg, nfh).unwrap();
    assert_eq!(lhs, rhs);
}

#[test]
fn sat_count_complement() {
    let (mut m, vars) = setup(5);
    let f = composite(&mut m, &vars);
    let nf = BDDFunction::not_edge(&mut m, f).unwrap();
    // one shared memo table serves both counts and is reused across calls
    let mut cache = SatCountCache::new();
    let count_f = BDDFunction::sat_count_edge(&m, f, 5, &mut cache);
    let count_nf = BDDFunction::sat_count_edge(&m, nf, 5, &mut cache);
    assert_eq!(count_nf, 32 - count_f);
    assert_eq!(BDDFunction::sat_count_edge(&m, f, 5, &mut cache), count_f);
    // changing the variable count invalidates the table
    assert_eq!(BDDFunction::sat_count_edge(&m, f, 6, &mut cache), 2 * count_f);
}

#[test]
fn cache_insensitivity() {
    let (mut m, vars) = setup(2);
    let first = BDDFunction::and_edge(&mut m, vars[0], vars[1]).unwrap();
    let again = BDDFunction::and_edge(&mut m, vars[0], vars[1]).unwrap();
    assert_eq!(first, again);
    m.clear_apply_cache();
    let after_clear = BDDFunction::and_edge(&mut m, vars[0], vars[1]).unwrap();
    assert_eq!(first, after_clear);
}

#[test]
fn forall_is_conjunction_of_restrictions() {
    let (mut m, vars) = setup(3);
    let f = BDDFunction::ite_edge(&mut m, vars[0], vars[1], vars[2]).unwrap();
    let fa = BDDFunction::forall_edge(&mut m, f, vars[0]).unwrap();
    let pos = BDDFunction::restrict_edge(&mut m, f, vars[0]).unwrap();
    let neg_cube = BDDFunction::not_edge(&mut m, vars[0]).unwrap();
    let neg = BDDFunction::restrict_edge(&mut m, f, neg_cube).unwrap();
    let conj = BDDFunction::and_edge(&mut m, pos, neg).unwrap();
    assert_eq!(fa, conj);
}

#[test]
fn apply_cache_policy_is_semantically_invisible() {
    // a dropped or overwritten cache entry only costs time, never changes
    // a result: tiny caches produce the same diagram and the same count
    for cap in [0usize, 1, 2, 1024] {
        let mut m = Manager::new(1024, cap);
        let mut vars = Vec::new();
        for _ in 0..5 {
            vars.push(m.new_var().unwrap());
        }
        let f = composite(&mut m, &vars);
        assert_eq!(
            BDDFunction::sat_count_edge(&m, f, 5, &mut SatCountCache::new()),
            20
        );
    }
}

#[test]
fn out_of_memory_on_full_store() {
    let mut m = Manager::new(0, 16);
    assert_eq!(m.new_var(), Err(OutOfMemory));

    let mut m2 = Manager::new(2, 16);
    let x0 = m2.new_var().unwrap();
    let x1 = m2.new_var().unwrap();
    // the conjunction needs a third node
    assert_eq!(BDDFunction::and_edge(&mut m2, x0, x1), Err(OutOfMemory));
    // terminal short-circuits still need no allocation
    assert_eq!(BDDFunction::and_edge(&mut m2, x0, x0), Ok(x0));
}

#[test]
fn store_is_canonical() {
    let (mut m, vars) = setup(2);
    let before = m.node_count();
    let a1 = BDDFunction::and_edge(&mut m, vars[0], vars[1]).unwrap();
    let grown = m.node_count();
    let a2 = BDDFunction::and_edge(&mut m, vars[1], vars[0]).unwrap();
    assert_eq!(a1, a2);
    // the second conjunction reuses the interned node
    assert_eq!(m.node_count(), grown);
    assert!(grown > before);
    // children of every node respect the level order and differ
    for i in 0..m.node_count() {
        let n = m.node_at(i);
        assert_ne!(n.then_child, n.else_child);
        if let Edge::Inner(t) = n.then_child {
            assert!(m.node_at(t).level > n.level);
        }
        if let Edge::Inner(e) = n.else_child {
            assert!(m.node_at(e).level > n.level);
        }
    }
}

#[test]
fn function_wrapper_round_trip() {
    let (mut m, _) = setup(0);
    let v = BDDFunction::new_var(&mut m).unwrap();
    let edge = v.into_inner();
    assert_eq!(BDDFunction::from_edge(edge).into_inner(), edge);
    assert_eq!(BDDFunction::from(edge).into_inner(), edge);
    assert_eq!(m.num_levels(), 1);
    assert_eq!(BDDFunction::t_edge(&m), Edge::Terminal(true));
    assert_eq!(BDDFunction::f_edge(&m), Edge::Terminal(false));
}
