use tensor_einsum::error::TensorError;
use tensor_einsum::tensor::Tensor;

#[test]
fn identity_contraction_returns_input() {
    let r = Tensor::from_vec2(vec![vec![1, 2], vec![3, 4]]).unwrap();
    let out = Tensor::einsum("ij->ij", &[&r]).unwrap();
    assert_eq!(out.shape, r.shape);
    assert_eq!(out.data, r.data);
}

#[test]
fn matmul_matches_inner_products() {
    let a = Tensor::from_vec2(vec![vec![1, 2, 3], vec![4, 5, 6]]).unwrap();
    let b = Tensor::from_vec2(vec![vec![7, 8], vec![9, 10], vec![11, 12]]).unwrap();
    let c = Tensor::einsum("ij,jk->ik", &[&a, &b]).unwrap();
    assert_eq!(c.shape, vec![2, 2]);
    // row i of a times column k of b
    assert_eq!(c.get(&[0, 0]).unwrap(), 1 * 7 + 2 * 9 + 3 * 11);
    assert_eq!(c.get(&[0, 1]).unwrap(), 1 * 8 + 2 * 10 + 3 * 12);
    assert_eq!(c.get(&[1, 0]).unwrap(), 4 * 7 + 5 * 9 + 6 * 11);
    assert_eq!(c.get(&[1, 1]).unwrap(), 4 * 8 + 5 * 10 + 6 * 12);
}

#[test]
fn transitive_step_has_single_nonzero() {
    let mut r = Tensor::zeros(vec![3, 3]);
    r.set(&[0, 1], 1).unwrap();
    r.set(&[1, 2], 1).unwrap();
    let r2 = Tensor::einsum("ij,jk->ik", &[&r, &r]).unwrap();
    assert_eq!(r2.shape, vec![3, 3]);
    for i in 0..3 {
        for k in 0..3 {
            let v = r2.get(&[i, k]).unwrap();
            if i == 0 && k == 2 {
                assert_eq!(v, 1);
            } else {
                assert_eq!(v, 0);
            }
        }
    }
}

#[test]
fn full_reduction_sums_all_entries() {
    let a = Tensor::from_vec2(vec![vec![1, 2, 3], vec![4, 5, 6]]).unwrap();
    let s = Tensor::einsum("ij->", &[&a]).unwrap();
    assert_eq!(s.shape.len(), 0);
    assert_eq!(s.data.len(), 1);
    assert_eq!(s.get(&[]).unwrap(), 21);
}

#[test]
fn dimension_conflict_rejected() {
    let a = Tensor::zeros(vec![2, 3]);
    let b = Tensor::zeros(vec![4, 2]);
    let e = Tensor::einsum("ij,jk->ik", &[&a, &b]).unwrap_err();
    assert_eq!(e, TensorError::DimensionConflict { symbol: 'j', expected: 3, found: 4 });
}

#[test]
fn arity_mismatch_rejected() {
    let a = Tensor::zeros(vec![2, 2]);
    let e = Tensor::einsum("ij,jk->ik", &[&a]).unwrap_err();
    assert_eq!(e, TensorError::ArityMismatch { groups: 2, operands: 1 });
}

#[test]
fn operand_rank_mismatch_rejected() {
    let a = Tensor::zeros(vec![2, 2, 2]);
    let e = Tensor::einsum("ij->ij", &[&a]).unwrap_err();
    assert_eq!(e, TensorError::RankMismatch { operand: 0, expected: 2, found: 3 });
}

#[test]
fn unbound_output_symbol_rejected() {
    let a = Tensor::zeros(vec![2, 2]);
    let e = Tensor::einsum("ij->ix", &[&a]).unwrap_err();
    assert_eq!(e, TensorError::UnboundOutputSymbol { symbol: 'x' });
}

#[test]
fn repeated_operand_symbol_takes_diagonal() {
    let m = Tensor::from_vec2(vec![vec![1, 2], vec![3, 4]]).unwrap();
    let d = Tensor::einsum("ii->i", &[&m]).unwrap();
    assert_eq!(d.shape, vec![2]);
    assert_eq!(d.data, vec![1, 4]);
    let tr = Tensor::einsum("ii->", &[&m]).unwrap();
    assert_eq!(tr.get(&[]).unwrap(), 5);
}

#[test]
fn repeated_diagonal_sizes_must_agree() {
    let m = Tensor::from_vec2(vec![vec![1, 2, 3], vec![4, 5, 6]]).unwrap();
    let e = Tensor::einsum("ii->i", &[&m]).unwrap_err();
    assert_eq!(e, TensorError::DimensionConflict { symbol: 'i', expected: 2, found: 3 });
}

#[test]
fn rank0_operand_and_output() {
    let mut s = Tensor::zeros(vec![]);
    s.set(&[], 6).unwrap();
    let out = Tensor::einsum("->", &[&s]).unwrap();
    assert_eq!(out.shape.len(), 0);
    assert_eq!(out.get(&[]).unwrap(), 6);
}

#[test]
fn outer_product() {
    let x = Tensor::from_vec2(vec![vec![1, 2]]).unwrap();
    let y = Tensor::from_vec2(vec![vec![3, 5]]).unwrap();
    // contract away the dummy leading axes of size 1
    let o = Tensor::einsum("ai,bj->ij", &[&x, &y]).unwrap();
    assert_eq!(o.shape, vec![2, 2]);
    assert_eq!(o.data, vec![3, 5, 6, 10]);
}

#[test]
fn three_operand_chain() {
    let a = Tensor::from_vec2(vec![vec![1, 0], vec![0, 1]]).unwrap();
    let b = Tensor::from_vec2(vec![vec![2, 3], vec![4, 5]]).unwrap();
    let c = Tensor::from_vec2(vec![vec![1, 1], vec![1, 1]]).unwrap();
    let out = Tensor::einsum("ij,jk,kl->il", &[&a, &b, &c]).unwrap();
    assert_eq!(out.shape, vec![2, 2]);
    assert_eq!(out.get(&[0, 0]).unwrap(), 5);
    assert_eq!(out.get(&[1, 1]).unwrap(), 9);
}

#[test]
fn scalar_operand_scales() {
    let v = Tensor::from_vec2(vec![vec![1, 2], vec![3, 4]]).unwrap();
    let mut s = Tensor::zeros(vec![]);
    s.set(&[], 10).unwrap();
    let out = Tensor::einsum("ij,->ij", &[&v, &s]).unwrap();
    assert_eq!(out.data, vec![10, 20, 30, 40]);
}

#[test]
fn accumulation_wraps_modulo_two_to_the_64() {
    let mut v = Tensor::zeros(vec![2]);
    v.set(&[0], i64::MAX).unwrap();
    v.set(&[1], 1).unwrap();
    let s = Tensor::einsum("i->", &[&v]).unwrap();
    assert_eq!(s.get(&[]).unwrap(), i64::MIN);
}

#[test]
fn negative_entries_multiply_and_sum() {
    let a = Tensor::from_vec2(vec![vec![-1, 2], vec![3, -4]]).unwrap();
    let b = Tensor::from_vec2(vec![vec![5, -6], vec![-7, 8]]).unwrap();
    let c = Tensor::einsum("ij,jk->ik", &[&a, &b]).unwrap();
    assert_eq!(c.get(&[0, 0]).unwrap(), -1 * 5 + 2 * -7);
    assert_eq!(c.get(&[1, 1]).unwrap(), 3 * -6 + -4 * 8);
}
