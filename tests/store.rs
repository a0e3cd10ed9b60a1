use mps_model::model::{Cols, Constr, ConstrType, Model, ModelError};
use mps_model::sweep::sweep;
use mps_model::text::{check_name, int_string, make_label, num_string};

fn constr(name: &str, entries: &[(i64, usize)], typ: ConstrType, rhs: i64) -> Constr {
    let mut cols = Cols::new();
    for &(c, v) in entries {
        cols.push(c, v);
    }
    Constr { name: name.to_string(), desc: None, cols, typ, rhs }
}

#[test]
fn cols_keep_push_order_and_duplicates() {
    let mut cols = Cols::new();
    cols.push(3, 1);
    cols.push(-2, 0);
    cols.push(3, 1);
    assert_eq!(cols.entries(), &[(3, 1), (-2, 0), (3, 1)]);
}

#[test]
fn add_var_returns_indices() {
    let mut m = Model::new("m".to_string());
    assert_eq!(m.add_var("AAAAAAAA".to_string(), None), Ok(0));
    assert_eq!(m.add_var("BBBBBBBB".to_string(), Some("second".to_string())), Ok(1));
    assert_eq!(m.num_vars(), 2);
    assert_eq!(m.var_name(1), "BBBBBBBB");
    assert_eq!(m.var_obj(0), None);
}

#[test]
fn add_var_rejects_bad_names() {
    let mut m = Model::new("m".to_string());
    assert_eq!(m.add_var("SHORT".to_string(), None), Err(ModelError::NamingViolation));
    assert_eq!(m.add_var("S00000001".to_string(), None), Err(ModelError::NamingViolation));
    assert_eq!(m.num_vars(), 0);
    assert!(!m.to_mps().contains("SHORT"));
}

#[test]
fn add_var_rejects_control_characters() {
    let mut m = Model::new("m".to_string());
    assert_eq!(m.add_var("S000000\n".to_string(), None), Err(ModelError::NamingViolation));
    assert_eq!(m.add_var("S00\u{7f}0000".to_string(), None), Err(ModelError::NamingViolation));
    assert_eq!(m.add_var("S00\u{85}0000".to_string(), None), Err(ModelError::NamingViolation));
    assert_eq!(m.add_var("éééé".to_string(), None), Err(ModelError::NamingViolation));
    assert_eq!(m.num_vars(), 0);
    assert_eq!(m.add_var("éééééééé".to_string(), None), Ok(0));
    assert_eq!(m.add_var("S 00 000".to_string(), None), Ok(1));
}

#[test]
fn add_constr_rejects_control_characters() {
    let mut m = Model::new("m".to_string());
    m.add_var("AAAAAAAA".to_string(), None).unwrap();
    let r = m.add_constr(constr("C00000\t1", &[(1, 0)], ConstrType::Equal, 1));
    assert_eq!(r, Err(ModelError::NamingViolation));
    assert_eq!(m.num_constrs(), 0);
    assert_eq!(m.var_nonzeros(0), &[]);
    // a rejected name leaves the model unchanged even when its row names no variable
    let r = m.add_constr(constr("C0000\u{0}12", &[(1, 9)], ConstrType::Equal, 1));
    assert_eq!(r, Err(ModelError::NamingViolation));
    assert_eq!(m.num_constrs(), 0);
}

#[test]
fn add_constr_rejects_bad_names() {
    let mut m = Model::new("m".to_string());
    m.add_var("AAAAAAAA".to_string(), None).unwrap();
    let r = m.add_constr(constr("C1", &[(1, 0)], ConstrType::Equal, 1));
    assert_eq!(r, Err(ModelError::NamingViolation));
    assert_eq!(m.num_constrs(), 0);
    assert_eq!(m.var_nonzeros(0), &[]);
}

#[test]
fn add_constr_records_back_references() {
    let mut m = Model::new("m".to_string());
    m.add_var("AAAAAAAA".to_string(), None).unwrap();
    m.add_var("BBBBBBBB".to_string(), None).unwrap();
    m.add_constr(constr("ROW00001", &[(2, 1), (5, 0)], ConstrType::LessEqual, 9)).unwrap();
    m.add_constr(constr("ROW00002", &[(-1, 1), (4, 1)], ConstrType::GreaterEqual, 0)).unwrap();
    assert_eq!(m.var_nonzeros(0), &[(0, 5)]);
    assert_eq!(m.var_nonzeros(1), &[(0, 2), (1, -1), (1, 4)]);
    assert_eq!(m.constr(1).rhs, 0);
}

#[test]
fn set_obj_last_entry_wins() {
    let mut m = Model::new("m".to_string());
    m.add_var("AAAAAAAA".to_string(), None).unwrap();
    m.add_var("BBBBBBBB".to_string(), None).unwrap();
    let mut obj = Cols::new();
    obj.push(4, 0);
    obj.push(7, 0);
    m.set_obj(obj);
    assert_eq!(m.var_obj(0), Some(7));
    assert_eq!(m.var_obj(1), None);
    assert_eq!(m.objective().entries(), &[(4, 0), (7, 0)]);
    let mut obj = Cols::new();
    obj.push(-3, 1);
    m.set_obj(obj);
    assert_eq!(m.var_obj(0), Some(7));
    assert_eq!(m.var_obj(1), Some(-3));
}

#[test]
fn mps_text_with_descriptions_and_zero_objective() {
    let mut m = Model::new("tiny".to_string());
    m.add_var("X0000001".to_string(), Some("first".to_string())).unwrap();
    m.add_var("X0000002".to_string(), None).unwrap();
    let mut c = constr("R0000001", &[(1, 0), (-1, 1)], ConstrType::LessEqual, -4);
    c.desc = Some("row".to_string());
    m.add_constr(c).unwrap();
    let mut obj = Cols::new();
    obj.push(0, 1);
    m.set_obj(obj);
    let expected = "\
NAME          tiny
ROWS
 N  OBJECTIV
* row
 L  R0000001
COLUMNS
* first
    X0000001  R0000001  1
    X0000002  OBJECTIV  0
    X0000002  R0000001  -1
RHS
    ________  R0000001  -4
BOUNDS
 BV ________  X0000001
 BV ________  X0000002
ENDATA";
    assert_eq!(m.to_mps(), expected);
}

fn brute_force(intervals: &[[u64; 2]], t: u64) -> Vec<usize> {
    (0..intervals.len())
        .filter(|&i| intervals[i][0] <= t && t < intervals[i][1])
        .collect()
}

fn check_sweep(intervals: Vec<[u64; 2]>) {
    let (keys, buckets) = sweep(&intervals);
    let mut starts: Vec<u64> = intervals.iter().map(|iv| iv[0]).collect();
    starts.sort();
    starts.dedup();
    assert_eq!(keys, starts);
    assert_eq!(buckets.len(), keys.len());
    for (k, &t) in keys.iter().enumerate() {
        assert_eq!(buckets[k], brute_force(&intervals, t));
    }
}

#[test]
fn sweep_matches_brute_force() {
    check_sweep(vec![]);
    check_sweep(vec![[0, 10], [5, 15]]);
    check_sweep(vec![[0, 100], [10, 20], [12, 13], [15, 15], [99, 100]]);
    check_sweep(vec![[5, 5], [5, 6], [5, 5], [3, 9], [9, 12], [1, 2]]);
    check_sweep(vec![[7, 3], [3, 7], [0, u64::MAX]]);
    // pseudo-random sets
    let mut seed: u64 = 12345;
    for _ in 0..50 {
        let mut ivs = Vec::new();
        for _ in 0..(seed % 13) {
            seed = seed.wrapping_mul(6364136223846793005).wrapping_add(1442695040888963407);
            let a = (seed >> 33) % 40;
            seed = seed.wrapping_mul(6364136223846793005).wrapping_add(1442695040888963407);
            let len = (seed >> 33) % 15;
            ivs.push([a, a + len]);
        }
        seed = seed.wrapping_mul(6364136223846793005).wrapping_add(1442695040888963407);
        check_sweep(ivs);
    }
}

#[test]
fn labels_and_numbers() {
    assert_eq!(make_label("S", 1, false), "S0000001");
    assert_eq!(make_label("U", 255, true), "U00000ff");
    assert_eq!(make_label("I", 12345678, false), "I12345678");
    assert_eq!(num_string(0, false), "0");
    assert_eq!(num_string(3054, true), "bee");
    assert_eq!(int_string(-42), "-42");
    assert_eq!(int_string(i64::MIN), "-9223372036854775808");
    assert_eq!(int_string(0), "0");
}

#[test]
fn name_check() {
    assert!(check_name("S0000001"));
    assert!(!check_name("S000001"));
    assert!(!check_name("S00000\r1"));
    assert!(!check_name("\u{9f}0000001"));
    assert!(check_name("\u{a0}0000001"));
}
