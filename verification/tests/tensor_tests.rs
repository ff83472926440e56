use tensor_einsum::error::TensorError;
use tensor_einsum::tensor::Tensor;

#[test]
fn zeros_len_and_content() {
    let t = Tensor::zeros(vec![2, 3, 4]);
    assert_eq!(t.shape, vec![2, 3, 4]);
    assert_eq!(t.data.len(), 24);
    assert!(t.data.iter().all(|&v| v == 0));
}

#[test]
fn zeros_rank0_single_cell() {
    let t = Tensor::zeros(vec![]);
    assert_eq!(t.shape.len(), 0);
    assert_eq!(t.data.len(), 1);
    assert_eq!(t.data[0], 0);
}

#[test]
fn flat_and_multi_index_roundtrip() {
    let t = Tensor::zeros(vec![2, 3, 4]);
    for flat in 0..24usize {
        let coord = t.calculate_multi_index(flat);
        let back = t.calculate_flat_index(&coord).unwrap();
        assert_eq!(back, flat);
    }
}

#[test]
fn flat_index_row_major_last_axis_fastest() {
    let t = Tensor::zeros(vec![2, 3]);
    assert_eq!(t.calculate_flat_index(&[0, 0]).unwrap(), 0);
    assert_eq!(t.calculate_flat_index(&[0, 1]).unwrap(), 1);
    assert_eq!(t.calculate_flat_index(&[0, 2]).unwrap(), 2);
    assert_eq!(t.calculate_flat_index(&[1, 0]).unwrap(), 3);
    assert_eq!(t.calculate_flat_index(&[1, 2]).unwrap(), 5);
}

#[test]
fn get_set_roundtrip() {
    let mut t = Tensor::zeros(vec![2, 2]);
    t.set(&[0, 1], 7).unwrap();
    t.set(&[1, 0], -3).unwrap();
    assert_eq!(t.get(&[0, 1]).unwrap(), 7);
    assert_eq!(t.get(&[1, 0]).unwrap(), -3);
    assert_eq!(t.get(&[0, 0]).unwrap(), 0);
}

#[test]
fn get_rank_mismatch() {
    let t = Tensor::zeros(vec![2, 2]);
    let e = t.get(&[0]).unwrap_err();
    assert_eq!(e, TensorError::RankMismatch { operand: 0, expected: 2, found: 1 });
}

#[test]
fn get_out_of_range_names_first_bad_axis() {
    let t = Tensor::zeros(vec![2, 3]);
    let e = t.get(&[0, 3]).unwrap_err();
    assert_eq!(e, TensorError::OutOfRange { axis: 1, index: 3, size: 3 });
    let e2 = t.get(&[5, 9]).unwrap_err();
    assert_eq!(e2, TensorError::OutOfRange { axis: 0, index: 5, size: 2 });
}

#[test]
fn set_error_leaves_tensor_unchanged() {
    let mut t = Tensor::zeros(vec![2, 2]);
    t.set(&[1, 1], 9).unwrap();
    let before = t.data.clone();
    assert!(t.set(&[2, 0], 5).is_err());
    assert_eq!(t.data, before);
}

#[test]
fn from_vec2_layout() {
    let t = Tensor::from_vec2(vec![vec![1, 2, 3], vec![4, 5, 6]]).unwrap();
    assert_eq!(t.shape, vec![2, 3]);
    assert_eq!(t.data, vec![1, 2, 3, 4, 5, 6]);
}

#[test]
fn from_vec2_ragged_rejected() {
    let e = Tensor::from_vec2(vec![vec![1, 2], vec![3]]).unwrap_err();
    assert_eq!(e, TensorError::ShapeMismatch { outer: 1, inner: 0, expected: 2, found: 1 });
}

#[test]
fn from_vec3_layout() {
    let t = Tensor::from_vec3(vec![
        vec![vec![1, 2], vec![3, 4]],
        vec![vec![5, 6], vec![7, 8]],
    ])
    .unwrap();
    assert_eq!(t.shape, vec![2, 2, 2]);
    assert_eq!(t.data, vec![1, 2, 3, 4, 5, 6, 7, 8]);
    assert_eq!(t.get(&[1, 0, 1]).unwrap(), 6);
}

#[test]
fn from_vec3_ragged_outer_rejected() {
    let e = Tensor::from_vec3(vec![vec![vec![1, 2], vec![3, 4]], vec![vec![5, 6]]]).unwrap_err();
    assert_eq!(e, TensorError::ShapeMismatch { outer: 1, inner: 0, expected: 2, found: 1 });
}

#[test]
fn from_vec3_ragged_inner_rejected() {
    let e = Tensor::from_vec3(vec![
        vec![vec![1, 2], vec![3, 4]],
        vec![vec![5, 6], vec![7]],
    ])
    .unwrap_err();
    assert_eq!(e, TensorError::ShapeMismatch { outer: 1, inner: 1, expected: 2, found: 1 });
}
