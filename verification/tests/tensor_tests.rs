use ghosenet::calc_offset;
use ghosenet::ops::{broadcast_shapes, broadcast_with, map_indices_for_broadcast, matmul_with};
use ghosenet::shape::{shape_numel, unravel_index};
use ghosenet::tensor::OpType;
use ghosenet::Tensor;

fn add(a: &Tensor<f32>, b: &Tensor<f32>) -> Tensor<f32> {
    broadcast_with(a, b, |x: f32, y: f32| x + y).expect("Shape mismatch for broadcasting in add")
}

fn mul(a: &Tensor<f32>, b: &Tensor<f32>) -> Tensor<f32> {
    broadcast_with(a, b, |x: f32, y: f32| x * y).expect("Shape mismatch for broadcasting in mul")
}

#[test]
fn test_tensor_creation() {
    let data = vec![1.0, 2.0, 3.0, 4.0];
    let shape = vec![2, 2];
    let tensor = Tensor::new(data.clone(), shape.clone(), false);
    assert_eq!(tensor.data, data);
    assert_eq!(tensor.shape, shape);
}

#[test]
fn test_tensor_zeros() {
    let shape = vec![3, 2];
    let tensor: Tensor<f32> = Tensor::zeros(shape.clone(), false);
    assert_eq!(tensor.data, vec![0.0; 6]);
    assert_eq!(tensor.shape, shape);
}

#[test]
fn test_tensor_get_set() {
    let mut tensor: Tensor<f32> = Tensor::zeros(vec![2, 2], false);
    tensor.set(1, 42.0);
    assert_eq!(tensor.get(1), 42.0);
}

#[test]
fn test_tensor_addition() {
    let a = Tensor::new(vec![1.0, 2.0, 3.0], vec![3], false);
    let b = Tensor::new(vec![4.0, 5.0, 6.0], vec![3], false);
    let result = add(&a, &b);
    assert_eq!(result.data, vec![5.0, 7.0, 9.0]);
}

#[test]
fn test_tensor_multiplication() {
    let a = Tensor::new(vec![1.0, 2.0, 3.0], vec![3], false);
    let b = Tensor::new(vec![4.0, 5.0, 6.0], vec![3], false);
    let result = mul(&a, &b);
    assert_eq!(result.data, vec![4.0, 10.0, 18.0]);
}

#[test]
fn test_calc_offset() {
    let shape = vec![3, 4, 5];
    let indices = vec![1, 2, 3];
    let offset = calc_offset(&shape, &indices);
    assert_eq!(offset, 33);
}

#[test]
fn test_empty_tensor_creation() {
    let data: Vec<f32> = vec![];
    let shape = vec![0];
    let tensor = Tensor::new(data.clone(), shape.clone(), false);
    assert_eq!(tensor.data, data);
    assert_eq!(tensor.shape, shape);
}

#[test]
fn test_tensor_multidim_get_set() {
    let mut tensor: Tensor<f32> = Tensor::zeros(vec![2, 2], false);
    let flat_index = calc_offset(&vec![2, 2], &vec![1, 1]);
    assert_eq!(flat_index, 3);
    tensor.set(flat_index, 99.0);
    assert_eq!(tensor.get(flat_index), 99.0);
}

#[test]
fn test_calc_offset_consistency() {
    let shape = vec![2, 3];
    let tensor = Tensor::new((0..6).map(|x| x as f32).collect(), shape.clone(), false);
    for i in 0..shape[0] {
        for j in 0..shape[1] {
            let offset = calc_offset(&shape, &vec![i, j]);
            assert_eq!(tensor.data[offset], tensor.get(offset));
        }
    }
}

#[test]
fn test_tensor_clone() {
    let original = Tensor::new(vec![1.0, 2.0, 3.0], vec![3], false);
    let cloned = original.clone();
    assert_eq!(original.data, cloned.data);
    assert_eq!(original.shape, cloned.shape);
}

#[test]
fn test_tensor_flat_indexing() {
    let tensor = Tensor::new(vec![1.0, 2.0, 3.0, 4.0], vec![2, 2], false);
    assert_eq!(tensor.get(0), 1.0);
    assert_eq!(tensor.get(1), 2.0);
    assert_eq!(tensor.get(3), 4.0);
}

#[test]
fn test_tensor_flat_indexing_mutation() {
    let mut tensor: Tensor<f32> = Tensor::zeros(vec![2, 2], false);
    tensor.set(2, 9.0);
    assert_eq!(tensor.get(2), 9.0);
}

#[test]
fn test_tensor_multidimensional_indexing() {
    let tensor = Tensor::new((0..6).map(|x| x as f32).collect(), vec![2, 3], false);
    assert_eq!(tensor.get_at(&[0, 0]), 0.0);
    assert_eq!(tensor.get_at(&[1, 0]), 3.0);
    assert_eq!(tensor.get_at(&[1, 2]), 5.0);
}

#[test]
fn test_tensor_multidimensional_indexing_mutation() {
    let mut tensor: Tensor<f32> = Tensor::zeros(vec![3, 3], false);
    tensor.set_at(&[2, 1], 7.0);
    assert_eq!(tensor.get_at(&[2, 1]), 7.0);
}

#[test]
fn test_tensor_addition_broadcasting() {
    let a = Tensor::new(vec![1.0, 2.0, 3.0], vec![3, 1], false);
    let b = Tensor::new(vec![10.0, 20.0], vec![1, 2], false);
    let result = add(&a, &b);
    assert_eq!(result.shape, vec![3, 2]);
    assert_eq!(result.data, vec![11.0, 21.0, 12.0, 22.0, 13.0, 23.0]);
}

#[test]
fn test_tensor_multiplication_broadcasting() {
    let a = Tensor::new(vec![1.0, 2.0, 3.0], vec![3, 1], false);
    let b = Tensor::new(vec![10.0, 20.0], vec![1, 2], false);
    let result = mul(&a, &b);
    assert_eq!(result.shape, vec![3, 2]);
    assert_eq!(result.data, vec![10.0, 20.0, 20.0, 40.0, 30.0, 60.0]);
}

#[test]
fn broadcasting_mismatched_shapes_gives_none() {
    let a = Tensor::new(vec![1.0, 2.0], vec![2], false);
    let b = Tensor::new(vec![3.0, 4.0, 5.0], vec![3], false);
    assert!(broadcast_with(&a, &b, |x: f32, y: f32| x + y).is_none());
    assert!(broadcast_with(&a, &b, |x: f32, y: f32| x * y).is_none());
}

#[test]
fn broadcast_shapes_examples() {
    assert_eq!(broadcast_shapes(&[3, 1], &[1, 2]), Some(vec![3, 2]));
    assert_eq!(broadcast_shapes(&[2, 3, 4], &[4]), Some(vec![2, 3, 4]));
    assert_eq!(broadcast_shapes(&[], &[5]), Some(vec![5]));
    assert_eq!(broadcast_shapes(&[2], &[3]), None);
    assert_eq!(broadcast_shapes(&[0], &[1]), Some(vec![0]));
    assert_eq!(broadcast_shapes(&[1], &[0]), Some(vec![0]));
    assert_eq!(broadcast_shapes(&[2, 0], &[1]), Some(vec![2, 0]));
    assert_eq!(broadcast_shapes(&[0], &[]), Some(vec![0]));
}

#[test]
fn map_indices_examples() {
    assert_eq!(map_indices_for_broadcast(&[2, 1], &[3, 1]), vec![2, 0]);
    assert_eq!(map_indices_for_broadcast(&[2, 1], &[1, 2]), vec![0, 1]);
    assert_eq!(map_indices_for_broadcast(&[1, 2, 3], &[4]), vec![3]);
    assert_eq!(map_indices_for_broadcast(&[3], &[2, 5]), vec![3, 0]);
}

#[test]
fn unravel_and_flat_index_round_trip() {
    let t: Tensor<f32> = Tensor::zeros(vec![3, 4, 5], false);
    assert_eq!(t.calc_multi_index(33), vec![1, 2, 3]);
    assert_eq!(unravel_index(&[3, 4, 5], 59), vec![2, 3, 4]);
    for f in 0..60 {
        let idx = t.calc_multi_index(f);
        assert_eq!(t.calculate_flat_index(&idx), f);
    }
    assert_eq!(t.calculate_flat_index(&[2, 3, 4]), 59);
}

#[test]
fn shape_numel_checks_overflow() {
    assert_eq!(shape_numel(&[3, 4, 5]), Some(60));
    assert_eq!(shape_numel(&[]), Some(1));
    assert_eq!(shape_numel(&[usize::MAX, 2]), None);
    assert_eq!(shape_numel(&[0, 7]), Some(0));
}

#[test]
fn new_and_zeros_track_gradients() {
    let t = Tensor::new(vec![1.0f32, 2.0], vec![2], true);
    assert_eq!(t.grad, Some(vec![0.0, 0.0]));
    assert!(t.op.is_none());
    let z: Tensor<f32> = Tensor::zeros(vec![2, 2], true);
    assert_eq!(z.grad, Some(vec![0.0; 4]));
    let u = Tensor::new(vec![1.0f32], vec![1], false);
    assert_eq!(u.grad, None);
}

#[test]
fn transpose_swaps_rows_and_columns() {
    let t = Tensor::new(vec![1.0f32, 2.0, 3.0, 4.0, 5.0, 6.0], vec![2, 3], true);
    let tt = t.transpose();
    assert_eq!(tt.shape, vec![3, 2]);
    assert_eq!(tt.data, vec![1.0, 4.0, 2.0, 5.0, 3.0, 6.0]);
    assert_eq!(tt.grad, Some(vec![0.0; 6]));
    let back = tt.transpose();
    assert_eq!(back.data, t.data);
    assert_eq!(back.shape, t.shape);
}

#[test]
fn matmul_with_multiplies_matrices() {
    let a = Tensor::new(vec![1.0f32, 2.0, 3.0, 4.0, 5.0, 6.0], vec![2, 3], false);
    let b = Tensor::new(vec![7.0f32, 8.0, 9.0, 10.0, 11.0, 12.0], vec![3, 2], true);
    let c = matmul_with(&a, &b, |acc: f32, x: f32, y: f32| acc + x * y);
    assert_eq!(c.shape, vec![2, 2]);
    assert_eq!(c.data, vec![58.0, 64.0, 139.0, 154.0]);
    assert!(c.requires_grad);
    assert_eq!(c.grad, Some(vec![0.0; 4]));
}

#[test]
fn zero_grad_backward_and_accumulate() {
    let mut t = Tensor::new(vec![1.0f32, 2.0, 3.0], vec![3], true);
    t.backward(1.0);
    assert_eq!(t.grad, Some(vec![1.0, 1.0, 1.0]));
    t.accumulate_grad(&[0.5, 1.5, 2.5], |x: f32, y: f32| x + y);
    assert_eq!(t.grad, Some(vec![1.5, 2.5, 3.5]));
    t.zero_grad();
    assert_eq!(t.grad, Some(vec![0.0, 0.0, 0.0]));
    assert_eq!(t.data, vec![1.0, 2.0, 3.0]);

    let mut u = Tensor::new(vec![1.0f32, 2.0], vec![2], false);
    u.backward(1.0);
    assert_eq!(u.grad, None);
    u.zero_grad();
    assert_eq!(u.grad, None);
    u.accumulate_grad(&[4.0, 5.0], |x: f32, y: f32| x + y);
    assert_eq!(u.grad, Some(vec![4.0, 5.0]));
}

#[test]
fn test_abs_functionality() {
    let tensor = Tensor::new(vec![-2.0f32, 3.0, -5.0], vec![3], false);
    let abs_tensor = tensor.abs_by(|x: f32| x.abs());
    assert_eq!(abs_tensor.data, vec![2.0, 3.0, 5.0]);
    assert!(abs_tensor.op.is_none());
}

#[test]
fn abs_records_its_input() {
    let input = Tensor::new(vec![-1.0f32, 4.0], vec![2], true);
    let with_grad = input.abs_by(|x: f32| x.abs());
    let node = with_grad.op.as_ref().unwrap();
    assert_eq!(node.op_type, OpType::Abs);
    assert_eq!(node.inputs.len(), 1);
    assert_eq!(node.inputs[0].data, vec![-1.0, 4.0]);
    assert_eq!(node.inputs[0].shape, vec![2]);
    let copy = with_grad.clone();
    assert_eq!(copy.op.as_ref().unwrap().inputs[0].data, vec![-1.0, 4.0]);
}

#[test]
fn test_select_functionality() {
    let mask = Tensor::new(vec![1.0f32, 0.0], vec![2], false);
    let a = Tensor::new(vec![5.0f32, 6.0], vec![2], false);
    let b = Tensor::new(vec![9.0f32, 4.0], vec![2], false);
    let selected = mask.select_by(&a, &b, |m: f32| m != 0.0);
    assert_eq!(selected.data, vec![5.0, 4.0]);
}

#[test]
fn mask_where_is_a_comparison_mask() {
    let t = Tensor::new(vec![0.5f32, 1.5, 0.25], vec![3], true);
    let m = t.mask_where(|x: f32| x < 1.0, 1.0, 0.0);
    assert_eq!(m.data, vec![1.0, 0.0, 1.0]);
    assert!(!m.requires_grad);
    assert_eq!(m.grad, None);
}

#[test]
fn map_and_map_values() {
    let mut t = Tensor::new(vec![1.0f32, 2.0], vec![2], true);
    t.backward(1.0);
    let fresh = t.map(|x: f32| x * 10.0);
    assert_eq!(fresh.data, vec![10.0, 20.0]);
    assert_eq!(fresh.grad, Some(vec![0.0, 0.0]));
    let kept = t.map_values(|x: f32| x * 10.0);
    assert_eq!(kept.data, vec![10.0, 20.0]);
    assert_eq!(kept.grad, Some(vec![1.0, 1.0]));
}

#[test]
fn iter_and_shape() {
    let t = Tensor::new(vec![1.0f32, 2.0, 3.0], vec![3, 1], false);
    let v: Vec<f32> = t.iter().cloned().collect();
    assert_eq!(v, vec![1.0, 2.0, 3.0]);
    assert_eq!(t.shape(), &vec![3, 1]);
}

#[test]
fn index_operator_reads_elements() {
    let t = Tensor::new(vec![1.0f32, 2.0, 3.0], vec![3], false);
    assert_eq!(t[0], 1.0);
    assert_eq!(t[2], 3.0);
}

#[test]
fn readme_examples() {
    let t = Tensor::new(vec![1.0f32, 2.0, 3.0, 4.0], vec![2, 2], false);
    assert_eq!(t.get(2), 3.0);
    assert_eq!(calc_offset(&[2, 3], &[1, 2]), 5);
}

#[test]
fn calc_offset_reads_only_leading_indices() {
    assert_eq!(calc_offset(&[2, 3], &[1, 2, 99]), 5);
    assert_eq!(calc_offset(&[], &[4]), 0);
    assert_eq!(ghosenet::shape::try_calc_offset(&[2, 3], &[1, 2]), Some(5));
    assert_eq!(ghosenet::shape::try_calc_offset(&[usize::MAX, 2, 2], &[0, 0, 0]), None);
}

#[test]
fn get_at_after_set_at() {
    let mut t: Tensor<f32> = Tensor::zeros(vec![2, 3], false);
    t.set_at(&[1, 2], 4.0);
    t.set_at(&[0, 1], 2.0);
    assert_eq!(t.get_at(&[1, 2]), 4.0);
    assert_eq!(t.get_at(&[0, 1]), 2.0);
    assert_eq!(t.get_at(&[1, 1]), 0.0);
    assert_eq!(t.data, vec![0.0, 2.0, 0.0, 0.0, 0.0, 4.0]);
}

#[test]
fn broadcasting_is_symmetric_in_shape() {
    let a = Tensor::new(vec![1.0f32, 2.0, 3.0], vec![3, 1], false);
    let b = Tensor::new(vec![10.0f32, 20.0], vec![2], false);
    let ab = broadcast_with(&a, &b, |x: f32, y: f32| x - y).unwrap();
    let ba = broadcast_with(&b, &a, |x: f32, y: f32| y - x).unwrap();
    assert_eq!(ab.shape, vec![3, 2]);
    assert_eq!(ab.shape, ba.shape);
    assert_eq!(ab.data, ba.data);
    assert_eq!(ab.data, vec![-9.0, -19.0, -8.0, -18.0, -7.0, -17.0]);
}

#[test]
fn broadcasting_against_a_scalar() {
    let s = Tensor::new(vec![2.0f32], vec![], true);
    let m = Tensor::new(vec![1.0f32, 2.0, 3.0, 4.0], vec![2, 2], false);
    let r = broadcast_with(&m, &s, |x: f32, y: f32| x * y).unwrap();
    assert_eq!(r.shape, vec![2, 2]);
    assert_eq!(r.data, vec![2.0, 4.0, 6.0, 8.0]);
    assert!(r.requires_grad);
    assert_eq!(r.grad, Some(vec![0.0; 4]));
}

#[test]
#[should_panic(expected = "Shape mismatch for broadcasting in add")]
fn test_tensor_addition_shape_mismatch() {
    let a = Tensor::new(vec![1.0, 2.0], vec![2], false);
    let b = Tensor::new(vec![3.0, 4.0, 5.0], vec![3], false);
    let _ = add(&a, &b);
}

#[test]
#[should_panic(expected = "Shape mismatch for broadcasting in mul")]
fn test_tensor_multiplication_shape_mismatch() {
    let a = Tensor::new(vec![1.0, 2.0], vec![2], false);
    let b = Tensor::new(vec![3.0, 4.0, 5.0], vec![3], false);
    let _ = mul(&a, &b);
}

#[test]
fn backward_on_single_element_sets_first_entry() {
    let mut t = Tensor::new(vec![3.0f32], vec![1], true);
    t.grad = Some(vec![0.0, 5.0]);
    t.backward(1.0);
    assert_eq!(t.grad, Some(vec![1.0, 5.0]));
    let mut fresh = Tensor::new(vec![3.0f32], vec![1], true);
    fresh.grad = None;
    fresh.backward(1.0);
    assert_eq!(fresh.grad, Some(vec![1.0]));
    let mut wide = Tensor::new(vec![1.0f32, 2.0], vec![2], true);
    wide.grad = Some(vec![7.0, 7.0, 7.0]);
    wide.backward(1.0);
    assert_eq!(wide.grad, Some(vec![1.0, 1.0, 1.0]));
}
