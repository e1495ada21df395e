use bezier_curves::binomial::MAX_DEGREE;
use bezier_curves::cache_coefficient_matrix_computer::CacheCoefficientMatrixComputer;
use bezier_curves::coefficient_matrix_computer::{
    CoefficientMatrixComputer, CoefficientMatrixComputerType,
};
use bezier_curves::jit_coefficient_matrix_computer::JITCoefficientMatrixComputer;
use bezier_curves::matrix::Matrix;

fn factorial_binomial(n: u64, k: u64) -> u64 {
    let mut r: u128 = 1;
    for i in 0..k {
        r = r * (n - i) as u128 / (i + 1) as u128;
    }
    r as u64
}

fn cached(n: usize) -> Matrix<i128> {
    let mut computer = CacheCoefficientMatrixComputer::new();
    computer.precompute_cache_for(n);
    computer.compute_for(n)
}

fn jit(n: usize) -> Matrix<i128> {
    JITCoefficientMatrixComputer::new().compute_for(n)
}

fn table(rows: &[&[i128]]) -> Matrix<i128> {
    Matrix::from_table(rows)
}

#[test]
fn cached_binomials_match_direct_formula() {
    let mut computer = CacheCoefficientMatrixComputer::new();
    computer.precompute_cache_for(20);
    for n in 0..=20usize {
        for k in 0..=n {
            assert_eq!(
                computer.get_binomial_coefficient(n, k),
                factorial_binomial(n as u64, k as u64)
            );
        }
    }
    assert_eq!(computer.get_binomial_coefficient(10, 3), 120);
    assert_eq!(computer.get_binomial_coefficient(7, 7), 1);
    assert_eq!(computer.get_binomial_coefficient(0, 0), 1);
}

#[test]
fn cached_binomials_at_max_degree() {
    let mut computer = CacheCoefficientMatrixComputer::new();
    computer.precompute_cache_for(MAX_DEGREE);
    assert_eq!(computer.get_binomial_coefficient(63, 31), 916312070471295267);
    assert_eq!(computer.get_binomial_coefficient(63, 32), 916312070471295267);
    assert_eq!(computer.get_binomial_coefficient(63, 1), 63);
    assert_eq!(computer.get_binomial_coefficient(63, 63), 1);
}

#[test]
fn binomial_symmetry() {
    let mut computer = CacheCoefficientMatrixComputer::new();
    computer.precompute_cache_for(30);
    for n in 0..=30usize {
        for k in 0..=n {
            assert_eq!(
                computer.get_binomial_coefficient(n, k),
                computer.get_binomial_coefficient(n, n - k)
            );
        }
    }
}

#[test]
fn binomial_pascal_rule() {
    let mut computer = CacheCoefficientMatrixComputer::new();
    computer.precompute_cache_for(30);
    for n in 2..=30usize {
        for k in 1..n {
            assert_eq!(
                computer.get_binomial_coefficient(n, k),
                computer.get_binomial_coefficient(n - 1, k - 1)
                    + computer.get_binomial_coefficient(n - 1, k)
            );
        }
    }
}

#[test]
fn cache_grows_and_never_shrinks() {
    let mut computer = CacheCoefficientMatrixComputer::new();
    computer.precompute_cache_for(3);
    assert_eq!(computer.get_binomial_coefficient(3, 1), 3);
    computer.precompute_cache_for(8);
    assert_eq!(computer.get_binomial_coefficient(8, 4), 70);
    computer.precompute_cache_for(2);
    assert_eq!(computer.get_binomial_coefficient(8, 5), 56);
    assert_eq!(computer.get_binomial_coefficient(3, 2), 3);
}

#[test]
fn next_binomial_steps_along_a_row() {
    assert_eq!(JITCoefficientMatrixComputer::next_binomial(1, 5, 0), 5);
    assert_eq!(JITCoefficientMatrixComputer::next_binomial(5, 5, 1), 10);
    assert_eq!(JITCoefficientMatrixComputer::next_binomial(10, 5, 2), 10);
    assert_eq!(JITCoefficientMatrixComputer::next_binomial(1, 5, 5), 0);
}

#[test]
fn degree_zero_matrix() {
    let expected = table(&[&[1]]);
    assert_eq!(cached(0).data, expected.data);
    assert_eq!(jit(0).data, expected.data);
}

#[test]
fn linear_matrix() {
    let expected = table(&[&[-1, 1], &[1, 0]]);
    for m in [cached(1), jit(1)] {
        assert_eq!(m.rows, 2);
        assert_eq!(m.columns, 2);
        assert_eq!(m.data, expected.data);
    }
}

#[test]
fn quadratic_matrix() {
    let expected = table(&[&[1, -2, 1], &[-2, 2, 0], &[1, 0, 0]]);
    for m in [cached(2), jit(2)] {
        assert_eq!(m.rows, 3);
        assert_eq!(m.columns, 3);
        assert_eq!(m.data, expected.data);
    }
}

#[test]
fn cubic_matrix() {
    let expected = table(&[
        &[-1, 3, -3, 1],
        &[3, -6, 3, 0],
        &[-3, 3, 0, 0],
        &[1, 0, 0, 0],
    ]);
    for m in [cached(3), jit(3)] {
        assert_eq!(m.rows, 4);
        assert_eq!(m.columns, 4);
        assert_eq!(m.data, expected.data);
    }
}

#[test]
fn both_computers_agree() {
    let mut computer = CacheCoefficientMatrixComputer::new();
    computer.precompute_cache_for(MAX_DEGREE);
    let stateless = JITCoefficientMatrixComputer::new();
    for n in 0..=MAX_DEGREE {
        let a = computer.compute_for(n);
        let b = stateless.compute_for(n);
        assert_eq!(a.rows, n + 1);
        assert_eq!(a.columns, n + 1);
        assert_eq!(a.data, b.data);
    }
}

#[test]
fn largest_degree_cells() {
    let m = jit(MAX_DEGREE);
    // cell (0, 0): (-1)^63 * C(63, 0) * C(63, 63)
    assert_eq!(m.data[0], -1);
    // cell (63, 0): C(63, 63)
    assert_eq!(m.data[63 * 64], 1);
    // cell (31, 0): (-1)^32 * C(63, 31) * C(32, 32)
    assert_eq!(m.data[31 * 64], 916312070471295267);
    // cell (1, 31): (-1)^31 * C(63, 1) * C(62, 31)
    assert_eq!(m.data[64 + 31], -63 * 465428353255261088i128);
}

#[test]
fn computer_type_labels() {
    assert_eq!(CoefficientMatrixComputerType::Cached.label(), "Cached");
    assert_eq!(CoefficientMatrixComputerType::JIT.label(), "JIT");
    assert_ne!(
        CoefficientMatrixComputerType::Cached,
        CoefficientMatrixComputerType::JIT
    );
}
