use mps_model::enumerate::build_model;
use mps_model::model::{ConstrType, Model, ModelError};
use mps_model::problem::{Problem, ProblemEdges, ProblemNodes};

fn problem(
    intervals: Vec<[u64; 2]>,
    costs: Vec<Vec<u64>>,
    usages: Vec<Vec<u64>>,
    usage_limit: u64,
    edges: Vec<[usize; 2]>,
    edge_costs: Vec<Vec<u64>>,
) -> Problem {
    Problem {
        name: "demo".to_string(),
        nodes: ProblemNodes { intervals, costs, usages },
        edges: ProblemEdges { nodes: edges, costs: edge_costs },
        usage_limit,
    }
}

fn scenario() -> Problem {
    problem(
        vec![[0, 10], [5, 15]],
        vec![vec![1, 2], vec![5]],
        vec![vec![1, 1], vec![2]],
        2,
        vec![[0, 1]],
        vec![vec![3, 4]],
    )
}

fn constr_names(m: &Model) -> Vec<String> {
    (0..m.num_constrs()).map(|c| m.constr(c).name.clone()).collect()
}

fn var_names(m: &Model) -> Vec<String> {
    (0..m.num_vars()).map(|v| m.var_name(v).clone()).collect()
}

#[test]
fn scenario_two_nodes_one_edge() {
    let m = build_model(&scenario()).unwrap();
    assert_eq!(
        var_names(&m),
        vec!["S0000001", "S0000002", "S0000003", "E0000001", "E0000002"]
    );
    assert_eq!(
        constr_names(&m),
        vec![
            "U0000000", "U0000001", "I0000000", "I0000005", "C0000001", "C0000002", "C0000003",
            "C0000004"
        ]
    );
    let assign: Vec<_> = (0..m.num_constrs())
        .filter(|&c| m.constr(c).typ == ConstrType::Equal)
        .collect();
    assert_eq!(assign.len(), 2);
    let links: Vec<_> = (0..m.num_constrs())
        .filter(|&c| m.constr(c).typ == ConstrType::GreaterEqual)
        .collect();
    assert_eq!(links.len(), 4);
    // the resource constraint at timestamp 5 bounds both nodes' strategies by the limit
    let at5 = m.constr(3);
    assert_eq!(at5.typ, ConstrType::LessEqual);
    assert_eq!(at5.rhs, 2);
    assert_eq!(at5.cols.entries(), &[(1, 0), (1, 1), (2, 2)]);
    // timestamp 0 is covered by node 0 alone
    let at0 = m.constr(2);
    assert_eq!(at0.typ, ConstrType::LessEqual);
    assert_eq!(at0.cols.entries(), &[(1, 0), (1, 1)]);
    let text = m.to_mps();
    assert_eq!(text.lines().filter(|l| l.starts_with(" BV ")).count(), 5);
    assert!(text.ends_with("ENDATA"));
}

#[test]
fn scenario_exact_text() {
    let m = build_model(&scenario()).unwrap();
    let expected = "\
NAME          demo
ROWS
 N  OBJECTIV
 E  U0000000
 E  U0000001
 L  I0000000
 L  I0000005
 G  C0000001
 G  C0000002
 G  C0000003
 G  C0000004
COLUMNS
    S0000001  OBJECTIV  1
    S0000001  U0000000  1
    S0000001  I0000000  1
    S0000001  I0000005  1
    S0000001  C0000001  -1
    S0000002  OBJECTIV  2
    S0000002  U0000000  1
    S0000002  I0000000  1
    S0000002  I0000005  1
    S0000002  C0000003  -1
    S0000003  OBJECTIV  5
    S0000003  U0000001  1
    S0000003  I0000005  2
    S0000003  C0000002  -1
    S0000003  C0000004  -1
    E0000001  OBJECTIV  3
    E0000001  C0000001  1
    E0000001  C0000002  1
    E0000002  OBJECTIV  4
    E0000002  C0000003  1
    E0000002  C0000004  1
RHS
    ________  U0000000  1
    ________  U0000001  1
    ________  I0000000  2
    ________  I0000005  2
    ________  C0000001  0
    ________  C0000002  0
    ________  C0000003  0
    ________  C0000004  0
BOUNDS
 BV ________  S0000001
 BV ________  S0000002
 BV ________  S0000003
 BV ________  E0000001
 BV ________  E0000002
ENDATA";
    assert_eq!(m.to_mps(), expected);
}

#[test]
fn assignment_rows_are_unit_equalities() {
    let p = problem(
        vec![[0, 1], [2, 3], [4, 4]],
        vec![vec![1, 2, 3], vec![4], vec![5, 6]],
        vec![vec![0, 0, 0], vec![0], vec![0, 0]],
        1,
        vec![],
        vec![],
    );
    let m = build_model(&p).unwrap();
    let sizes = [3usize, 1, 2];
    let mut first = 0usize;
    for (i, &n) in sizes.iter().enumerate() {
        let c = m.constr(i);
        assert_eq!(c.typ, ConstrType::Equal);
        assert_eq!(c.rhs, 1);
        let entries = c.cols.entries();
        assert_eq!(entries.len(), n);
        assert_eq!(entries.iter().map(|e| e.0).sum::<i64>(), n as i64);
        for (k, e) in entries.iter().enumerate() {
            assert_eq!(*e, (1, first + k));
        }
        first += n;
    }
}

#[test]
fn connectivity_pairs() {
    let p = problem(
        vec![[0, 1], [0, 1]],
        vec![vec![1, 1], vec![1, 1, 1]],
        vec![vec![0, 0], vec![0, 0, 0]],
        10,
        vec![[1, 0]],
        vec![vec![7, 8, 9, 10, 11, 12]],
    );
    let m = build_model(&p).unwrap();
    // 2 assignment rows, 1 resource row, then 2 per pair
    assert_eq!(m.num_constrs(), 2 + 1 + 12);
    let strat_v = [2usize, 3, 4];
    let strat_u = [0usize, 1];
    for a in 0..3 {
        for b in 0..2 {
            let k = a * 2 + b;
            let edge_var = 5 + k;
            let c0 = m.constr(3 + 2 * k);
            let c1 = m.constr(3 + 2 * k + 1);
            for c in [c0, c1] {
                assert_eq!(c.typ, ConstrType::GreaterEqual);
                assert_eq!(c.rhs, 0);
            }
            assert_eq!(c0.cols.entries(), &[(1, edge_var), (-1, strat_v[a])]);
            assert_eq!(c1.cols.entries(), &[(1, edge_var), (-1, strat_u[b])]);
            assert_eq!(m.var_obj(edge_var), Some(7 + k as i64));
        }
    }
}

#[test]
fn model_size_counts() {
    // intervals: nested, disjoint, empty; starts 0, 2, 2, 20, 30
    let p = problem(
        vec![[0, 10], [2, 5], [2, 3], [20, 21], [30, 30]],
        vec![vec![1], vec![1, 1], vec![1, 1, 1], vec![1], vec![1, 1]],
        vec![vec![1], vec![1, 1], vec![1, 1, 1], vec![1], vec![1, 1]],
        5,
        vec![[0, 1], [2, 3], [4, 4]],
        vec![vec![1, 1], vec![1, 1, 1], vec![1, 1, 1, 1]],
    );
    let m = build_model(&p).unwrap();
    let strategies = 1 + 2 + 3 + 1 + 2;
    let pairs = 2 + 3 + 4;
    assert_eq!(m.num_vars(), strategies + pairs);
    // starts with a covering node: 0, 2, 20 (30 only starts an empty interval)
    assert_eq!(m.num_constrs(), 5 + 3 + 2 * pairs);
    let names = constr_names(&m);
    assert_eq!(&names[5..8], &["I0000000", "I0000002", "I0000020"]);
}

#[test]
fn empty_interval_gets_no_resource_row() {
    let p = problem(vec![[7, 7]], vec![vec![3]], vec![vec![1]], 0, vec![], vec![]);
    let m = build_model(&p).unwrap();
    assert_eq!(constr_names(&m), vec!["U0000000"]);
    assert_eq!(m.var_nonzeros(0), &[(0, 1)]);
}

#[test]
fn empty_problem() {
    let p = problem(vec![], vec![], vec![], 0, vec![], vec![]);
    let m = build_model(&p).unwrap();
    assert_eq!(m.num_vars(), 0);
    assert_eq!(m.num_constrs(), 0);
    assert_eq!(
        m.to_mps(),
        "NAME          demo\nROWS\n N  OBJECTIV\nCOLUMNS\nRHS\nBOUNDS\nENDATA"
    );
}

#[test]
fn naming_violation_on_large_instant() {
    let p = problem(
        vec![[10_000_000, 10_000_001]],
        vec![vec![1]],
        vec![vec![1]],
        1,
        vec![],
        vec![],
    );
    assert_eq!(build_model(&p).err(), Some(ModelError::NamingViolation));
}

#[test]
fn large_start_of_empty_interval_is_fine() {
    let p = problem(vec![[10_000_000, 10_000_000]], vec![vec![1]], vec![vec![1]], 1, vec![], vec![]);
    assert!(build_model(&p).is_ok());
}

#[test]
fn largest_instant_that_fits() {
    let p = problem(vec![[9_999_999, 10_000_000]], vec![vec![1]], vec![vec![1]], 1, vec![], vec![]);
    let m = build_model(&p).unwrap();
    assert_eq!(m.constr(1).name, "I9999999");
}

#[test]
fn mismatched_usages_is_input_error() {
    let p = problem(vec![[0, 1]], vec![vec![1, 2]], vec![vec![1]], 1, vec![], vec![]);
    assert_eq!(build_model(&p).err(), Some(ModelError::InputDecode));
}

#[test]
fn mismatched_node_lists_is_input_error() {
    let p = problem(vec![[0, 1], [0, 1]], vec![vec![1]], vec![vec![1]], 1, vec![], vec![]);
    assert_eq!(build_model(&p).err(), Some(ModelError::InputDecode));
}

#[test]
fn edge_cost_count_is_input_error() {
    let p = problem(
        vec![[0, 1], [0, 1]],
        vec![vec![1, 1], vec![1, 1]],
        vec![vec![1, 1], vec![1, 1]],
        1,
        vec![[0, 1]],
        vec![vec![1, 2, 3]],
    );
    assert_eq!(build_model(&p).err(), Some(ModelError::InputDecode));
}

#[test]
fn edge_to_missing_node_is_input_error() {
    let p = problem(vec![[0, 1]], vec![vec![1]], vec![vec![1]], 1, vec![[0, 3]], vec![vec![1]]);
    assert_eq!(build_model(&p).err(), Some(ModelError::InputDecode));
}

#[test]
fn cost_overflow() {
    let p = problem(vec![[0, 1]], vec![vec![u64::MAX]], vec![vec![1]], 1, vec![], vec![]);
    assert_eq!(build_model(&p).err(), Some(ModelError::CoefficientOverflow));
}

#[test]
fn limit_overflow() {
    let p = problem(vec![[0, 1]], vec![vec![1]], vec![vec![1]], i64::MAX as u64 + 1, vec![], vec![]);
    assert_eq!(build_model(&p).err(), Some(ModelError::CoefficientOverflow));
}

#[test]
fn largest_coefficient_fits() {
    let p = problem(vec![[0, 1]], vec![vec![i64::MAX as u64]], vec![vec![1]], 1, vec![], vec![]);
    let m = build_model(&p).unwrap();
    assert_eq!(m.var_obj(0), Some(i64::MAX));
    assert!(m.to_mps().contains("    S0000001  OBJECTIV  9223372036854775807\n"));
}
