use tensor_einsum::error::TensorError;
use tensor_einsum::render::int_string;
use tensor_einsum::tensor::Tensor;

fn strings(xs: &[&str]) -> Vec<String> {
    xs.iter().map(|s| s.to_string()).collect()
}

#[test]
fn int_string_renders_decimals() {
    assert_eq!(int_string(0), "0");
    assert_eq!(int_string(7), "7");
    assert_eq!(int_string(42), "42");
    assert_eq!(int_string(-1), "-1");
    assert_eq!(int_string(-105), "-105");
    assert_eq!(int_string(i64::MAX), "9223372036854775807");
    assert_eq!(int_string(i64::MIN), "-9223372036854775808");
}

#[test]
fn csv_export_single_entry() {
    let mut t = Tensor::zeros(vec![2, 2]);
    t.set(&[0, 1], 2).unwrap();
    let header = strings(&["Subj", "Obj", "Value"]);
    let labels = vec![strings(&["A", "B"]), strings(&["X", "Y"])];
    let lines = t.relation_csv_lines(&header, &labels).unwrap();
    assert_eq!(lines, vec!["Subj,Obj,Value".to_string(), "A,Y,2".to_string()]);
}

#[test]
fn csv_rows_come_in_flat_order() {
    let t = Tensor::from_vec2(vec![vec![1, 0], vec![0, -2]]).unwrap();
    let header = strings(&["R", "C", "Value"]);
    let labels = vec![strings(&["r0", "r1"]), strings(&["c0", "c1"])];
    let lines = t.relation_csv_lines(&header, &labels).unwrap();
    assert_eq!(
        lines,
        vec!["R,C,Value".to_string(), "r0,c0,1".to_string(), "r1,c1,-2".to_string()]
    );
}

#[test]
fn csv_missing_label_uses_placeholder() {
    let mut t = Tensor::zeros(vec![2, 2]);
    t.set(&[1, 0], 3).unwrap();
    let header = strings(&["R", "C", "Value"]);
    let labels = vec![strings(&["r0"]), strings(&["c0", "c1"])];
    let lines = t.relation_csv_lines(&header, &labels).unwrap();
    assert_eq!(lines, vec!["R,C,Value".to_string(), "Unknown,c0,3".to_string()]);
}

#[test]
fn csv_label_list_length_checked() {
    let t = Tensor::zeros(vec![2, 2]);
    let header = strings(&["R", "C", "Value"]);
    let labels = vec![strings(&["r0", "r1"])];
    let e = t.relation_csv_lines(&header, &labels).unwrap_err();
    assert_eq!(e, TensorError::ShapeMismatch { outer: 0, inner: 0, expected: 2, found: 1 });
}

#[test]
fn csv_header_length_checked() {
    let t = Tensor::zeros(vec![2, 2]);
    let header = strings(&["R", "C"]);
    let labels = vec![strings(&["r0", "r1"]), strings(&["c0", "c1"])];
    let e = t.relation_csv_lines(&header, &labels).unwrap_err();
    assert_eq!(e, TensorError::ShapeMismatch { outer: 0, inner: 0, expected: 3, found: 2 });
}

#[test]
fn csv_rank0_row_is_just_the_value() {
    let mut t = Tensor::zeros(vec![]);
    t.set(&[], 6).unwrap();
    let header = strings(&["Value"]);
    let labels: Vec<Vec<String>> = vec![];
    let lines = t.relation_csv_lines(&header, &labels).unwrap();
    assert_eq!(lines, vec!["Value".to_string(), "6".to_string()]);
}

#[test]
fn nonzero_lines_list_coordinates_and_values() {
    let t = Tensor::from_vec2(vec![vec![0, 5], vec![-1, 0]]).unwrap();
    let lines = t.nonzero_lines();
    assert_eq!(lines, vec!["[0, 1] -> 5".to_string(), "[1, 0] -> -1".to_string()]);
}

#[test]
fn nonzero_lines_empty_for_zero_tensor() {
    let t = Tensor::zeros(vec![3, 3]);
    assert!(t.nonzero_lines().is_empty());
}

#[test]
fn render_small_tensor_as_one_line() {
    let mut t = Tensor::zeros(vec![3]);
    t.set(&[1], -2).unwrap();
    assert_eq!(t.render_tensor_lines(), vec!["Tensor [3]: [0, -2, 0]".to_string()]);
}

#[test]
fn render_matrix_with_placeholder_dots() {
    let t = Tensor::from_vec2(vec![vec![1, 0], vec![0, 12]]).unwrap();
    assert_eq!(
        t.render_tensor_lines(),
        vec!["Matrix:".to_string(), "[ 1 . ]".to_string(), "[ . 12 ]".to_string()]
    );
}

#[test]
fn render_rank3_as_numbered_slices() {
    let t = Tensor::from_vec3(vec![
        vec![vec![1, 2], vec![3, 4]],
        vec![vec![0, 0], vec![5, 6]],
    ])
    .unwrap();
    assert_eq!(
        t.render_tensor_lines(),
        vec![
            "Slice 0:".to_string(),
            "[ 1 2 ]".to_string(),
            "[ 3 4 ]".to_string(),
            "Slice 1:".to_string(),
            "[ . . ]".to_string(),
            "[ 5 6 ]".to_string(),
        ]
    );
}
