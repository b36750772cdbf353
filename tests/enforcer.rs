use ratchet::enforcer::{Enforcer, InvariantError};
use ratchet::graph::{DType, Op, Tensor};

fn t(shape: Vec<usize>, dt: DType) -> Tensor {
    Tensor {
        id: 0,
        op: Op { srcs: vec![], inplace: false },
        num_bytes: 4,
        resolved: false,
        storage: None,
        shape,
        dt,
    }
}

#[test]
fn input_arity_accepts_expected_or_one_more() {
    let ins = vec![t(vec![1], DType::F32), t(vec![1], DType::F32)];
    assert!(Enforcer::check_input_arity(&ins, 2).is_ok());
    assert!(Enforcer::check_input_arity(&ins, 1).is_ok());
    match Enforcer::check_input_arity(&ins, 3) {
        Err(InvariantError::InputArity { accepted, actual }) => {
            assert_eq!(accepted, 3..=4);
            assert_eq!(actual, 2);
        }
        other => panic!("unexpected {:?}", other),
    }
}

#[test]
fn output_arity_range_reports_range() {
    let outs = vec![t(vec![1], DType::F32)];
    assert!(Enforcer::check_output_arity_range(&outs, 1..=1).is_ok());
    assert!(Enforcer::check_output_arity(&outs, 1).is_ok());
    match Enforcer::check_output_arity_range(&outs, 2..=5) {
        Err(InvariantError::OutputArity { accepted, actual }) => {
            assert_eq!(accepted, 2..=5);
            assert_eq!(actual, 1);
        }
        other => panic!("unexpected {:?}", other),
    }
}

#[test]
fn shape_pair_compares_chosen_dims() {
    let a = t(vec![2, 3, 4], DType::F32);
    let b = t(vec![4, 5], DType::F32);
    assert!(Enforcer::check_shape_pair(&a, &b, 2, 0).is_ok());
    match Enforcer::check_shape_pair(&a, &b, 1, 1) {
        Err(InvariantError::ShapeMismatch { left, right, a, b }) => {
            assert_eq!((left, right, a, b), (1, 1, 3, 5));
        }
        other => panic!("unexpected {:?}", other),
    }
}

#[test]
fn shapes_at_index_reports_first_mismatch() {
    let ts = vec![t(vec![2, 8], DType::F32), t(vec![3, 8], DType::F32), t(vec![2, 9], DType::F32)];
    assert!(Enforcer::match_shapes_at_index(&ts, 1).is_err());
    match Enforcer::match_shapes_at_index(&ts, 0) {
        Err(InvariantError::ShapeMismatch { left, right, a, b }) => {
            assert_eq!((left, right, a, b), (0, 0, 2, 3));
        }
        other => panic!("unexpected {:?}", other),
    }
    let same = vec![t(vec![2, 8], DType::F32), t(vec![5, 8], DType::F16)];
    assert!(Enforcer::match_shapes_at_index(&same, 1).is_ok());
}

#[test]
fn rank_and_dtype_checks() {
    let x = t(vec![1, 2, 3], DType::F16);
    assert!(Enforcer::assert_rank(&x, 3).is_ok());
    match Enforcer::assert_rank(&x, 2) {
        Err(InvariantError::RankMismatch { accepted, actual }) => {
            assert_eq!(accepted, 2..=3);
            assert_eq!(actual, 3);
        }
        other => panic!("unexpected {:?}", other),
    }
    assert!(Enforcer::assert_dtype(&x, DType::F16).is_ok());
    match Enforcer::assert_dtype(&x, DType::F32) {
        Err(InvariantError::DTypeMismatch { expected, actual }) => {
            assert_eq!(expected, DType::F32);
            assert_eq!(actual, DType::F16);
        }
        other => panic!("unexpected {:?}", other),
    }
    assert!(Enforcer::assert_rank_range(&x, 2..=4).is_ok());
    assert!(Enforcer::assert_rank_range(&x, 4..=6).is_err());
}

#[test]
fn equal_ranks_returns_common_rank() {
    let same = vec![t(vec![1, 2], DType::F32), t(vec![3, 4], DType::F32)];
    assert_eq!(Enforcer::assert_equal_ranks(&same).unwrap(), 2);
    let diff = vec![t(vec![1, 2], DType::F32), t(vec![3], DType::F32)];
    match Enforcer::assert_equal_ranks(&diff) {
        Err(InvariantError::RankMismatch { accepted, actual }) => {
            assert_eq!(accepted, 2..=3);
            assert_eq!(actual, 1);
        }
        other => panic!("unexpected {:?}", other),
    }
}
