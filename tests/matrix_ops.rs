use bezier_curves::cache_coefficient_matrix_computer::CacheCoefficientMatrixComputer;
use bezier_curves::coefficient_matrix_computer::{
    CoefficientMatrixComputer, CoefficientMatrixComputerType,
};
use bezier_curves::jit_coefficient_matrix_computer::JITCoefficientMatrixComputer;
use bezier_curves::matrix::Matrix;
use bezier_curves::options::Options;
use bezier_curves::vector2::Vector2;

fn identity(n: usize) -> Matrix<i128> {
    let mut m = Matrix::new(n, n);
    for i in 0..n {
        m.row_at_mut(i)[i] = 1;
    }
    m
}

#[test]
fn new_is_zero_filled() {
    let m = Matrix::new(3, 4);
    assert_eq!(m.rows, 3);
    assert_eq!(m.columns, 4);
    assert_eq!(m.data, vec![0i128; 12]);
    let empty = Matrix::new(0, 5);
    assert!(empty.data.is_empty());
}

#[test]
fn from_table_is_row_major() {
    let m = Matrix::from_table(&[&[1, 2, 3], &[4, 5, 6]]);
    assert_eq!(m.rows, 2);
    assert_eq!(m.columns, 3);
    assert_eq!(m.data, vec![1, 2, 3, 4, 5, 6]);
    assert_eq!(m.row_at(0), &[1, 2, 3]);
    assert_eq!(m.row_at(1), &[4, 5, 6]);
}

#[test]
fn row_at_mut_writes_one_row() {
    let mut m = Matrix::from_table(&[&[1i128, 2], &[3, 4], &[5, 6]]);
    {
        let row = m.row_at_mut(1);
        row[0] = 30;
        row[1] = 40;
    }
    assert_eq!(m.data, vec![1, 2, 30, 40, 5, 6]);
}

#[test]
fn multiply_rejects_mismatched_shapes() {
    let a = Matrix::from_table(&[&[1i128, 2, 3]]);
    let b = Matrix::from_table(&[&[1i128, 2], &[3, 4]]);
    assert!(a.multiply(&b).is_none());
    assert!(b.multiply(&b).is_some());
}

#[test]
fn multiply_shape_and_values() {
    let a = Matrix::from_table(&[&[1i128, 2, 3], &[4, 5, 6]]);
    let b = Matrix::from_table(&[&[7i128, 8], &[9, 10], &[11, 12]]);
    let p = a.multiply(&b).unwrap();
    assert_eq!(p.rows, 2);
    assert_eq!(p.columns, 2);
    assert_eq!(p.data, vec![58, 64, 139, 154]);
    let q = a.multiply_unchecked(&b);
    assert_eq!(q.data, p.data);
}

#[test]
fn multiply_with_negative_cells() {
    let a = Matrix::from_table(&[&[-1i128, 2], &[0, -3]]);
    let b = Matrix::from_table(&[&[4i128], &[-5]]);
    assert_eq!(a.multiply(&b).unwrap().data, vec![-14, 15]);
}

#[test]
fn identity_is_neutral() {
    let a = Matrix::from_table(&[&[1i128, -2, 3], &[4, 5, -6]]);
    let left = identity(2).multiply(&a).unwrap();
    let right = a.multiply(&identity(3)).unwrap();
    assert_eq!((left.rows, left.columns), (2, 3));
    assert_eq!(left.data, a.data);
    assert_eq!(right.data, a.data);
}

#[test]
fn multiply_is_associative() {
    let a = Matrix::from_table(&[&[1i128, 2], &[3, 4]]);
    let b = Matrix::from_table(&[&[0i128, -1, 2], &[5, 1, 1]]);
    let c = Matrix::from_table(&[&[2i128], &[-3], &[7]]);
    let ab_c = a.multiply(&b).unwrap().multiply(&c).unwrap();
    let a_bc = a.multiply(&b.multiply(&c).unwrap()).unwrap();
    assert_eq!(ab_c.data, a_bc.data);
    assert_eq!(ab_c.data, vec![45, 107]);
}

fn sample(control: &Matrix<i128>, coefficients: &Matrix<i128>, powers: &[i128]) -> Vec<i128> {
    let column: Vec<&[i128]> = powers.iter().map(std::slice::from_ref).collect();
    let powers = Matrix::from_table(&column);
    control
        .multiply(&coefficients.multiply(&powers).unwrap())
        .unwrap()
        .data
}

#[test]
fn curve_endpoints_are_first_and_last_control_points() {
    let control = Matrix::from_table(&[&[3i128, -7, 11, 4], &[5, 9, -2, 8]]);
    let coefficients = JITCoefficientMatrixComputer::new().compute_for(3);
    assert_eq!(sample(&control, &coefficients, &[0, 0, 0, 1]), vec![3, 5]);
    assert_eq!(sample(&control, &coefficients, &[1, 1, 1, 1]), vec![4, 8]);
}

#[test]
fn quadratic_curve_samples_scaled_by_steps() {
    // Control points (0, 0), (1, 2), (2, 0) with two steps: t = i / 2, and the
    // powers [t^2, t, 1] scaled by 2^2 become [i^2, 2 i, 4].
    let control = Matrix::from_table(&[&[0i128, 1, 2], &[0, 2, 0]]);
    let mut computer = CacheCoefficientMatrixComputer::new();
    computer.precompute_cache_for(2);
    let coefficients = computer.compute_for(2);
    assert_eq!(sample(&control, &coefficients, &[0, 0, 4]), vec![0, 0]);
    assert_eq!(sample(&control, &coefficients, &[1, 2, 4]), vec![4, 4]);
    assert_eq!(sample(&control, &coefficients, &[4, 4, 4]), vec![8, 0]);
}

#[test]
fn options_defaults() {
    let options = Options::new();
    assert_eq!(options.steps, 1);
    assert_eq!(
        options.coefficient_matrix_computer_type,
        CoefficientMatrixComputerType::Cached
    );
    assert!(!options.render_curve_points);
    assert!(options.render_control_points);
    assert!(options.render_lines);
}

#[test]
fn vector_components_and_magnitude() {
    let v = Vector2::new(3i64, -4i64);
    assert_eq!(v.x, 3);
    assert_eq!(v.y, -4);
    assert_eq!(v.magnitude_squared(), 25);
    assert_eq!(Vector2::new(0i64, 0i64).magnitude_squared(), 0);
}
