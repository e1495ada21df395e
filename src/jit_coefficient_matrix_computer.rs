use crate::binomial::{binomial, lemma_binomial_fits, lemma_binomial_step_div, MAX_DEGREE};
use crate::coefficient_matrix_computer::{
    alternating, coefficient, is_coefficient_matrix, CoefficientMatrixComputer,
};
use crate::matrix::{lemma_cell_distinct, lemma_cell_index, Matrix};
use vstd::prelude::*;

verus! {

/// Computes coefficient matrices with no stored state, deriving each binomial
/// coefficient from the previous one by the multiplicative step.
pub struct JITCoefficientMatrixComputer;

impl JITCoefficientMatrixComputer {
    pub fn new() -> JITCoefficientMatrixComputer {
        JITCoefficientMatrixComputer
    }

    /// coefficient * (n - k) / (k + 1): from C(n, k) it gives C(n, k + 1).
    pub fn next_binomial(coefficient: u64, n: usize, k: usize) -> (r: u64)
        requires
            k <= n,
            (coefficient * (n - k)) as int / (k + 1) as int <= u64::MAX,
        ensures
            r == (coefficient * (n - k)) as int / (k + 1) as int,
    {
        proof {
            assert(coefficient * (n - k) <= 0xffff_ffff_ffff_ffffint * 0xffff_ffff_ffff_ffffint)
                by (nonlinear_arith)
                requires
                    coefficient <= 0xffff_ffff_ffff_ffffint,
                    n - k <= 0xffff_ffff_ffff_ffffint,
                    0 <= n - k,
            ;
        }
        ((coefficient as u128) * ((n - k) as u128) / ((k as u128) + 1)) as u64
    }
}

impl CoefficientMatrixComputer for JITCoefficientMatrixComputer {
    open spec fn ready_for(&self, n: nat) -> bool {
        true
    }

    fn compute_for(&self, n: usize) -> (m: Matrix<i128>) {
        let size = n + 1;
        proof {
            assert(size * size <= 64 * 64) by (nonlinear_arith)
                requires
                    size <= 64,
            ;
        }
        let mut result = Matrix::new(size, size);
        proof {
            assert forall|r: int, c: int| 0 <= r < size && 0 <= c < size implies #[trigger] result.at(r, c) == 0 by {
                lemma_cell_index(r, c, size as int, size as int);
            }
        }
        let mut factor: u64 = 1;
        let mut k: usize = 0;
        while k <= n
            invariant
                factor == binomial(n as nat, k as nat),
                n <= MAX_DEGREE,
                size == n + 1,
                result.wf(),
                result.rows == size,
                result.columns == size,
                k <= size,
                forall|r: int, c: int|
                    0 <= r < size && 0 <= c < size ==> #[trigger] result.at(r, c) == if r < k {
                        coefficient(n as nat, r as nat, c as nat)
                    } else {
                        0
                    },
            decreases size - k,
        {
            let mut inner: u64 = 1;
            let mut i: usize = 0;
            while i <= n - k
                invariant
                    inner == binomial((n - k) as nat, i as nat),
                    n <= MAX_DEGREE,
                    size == n + 1,
                    k <= n,
                    factor == binomial(n as nat, k as nat),
                    result.wf(),
                    result.rows == size,
                    result.columns == size,
                    i <= n - k + 1,
                    forall|r: int, c: int|
                        0 <= r < size && 0 <= c < size ==> #[trigger] result.at(r, c) == if r < k
                            || (r == k && c + i > n - k) {
                            coefficient(n as nat, r as nat, c as nat)
                        } else {
                            0
                        },
                decreases n - k + 1 - i,
            {
                proof {
                    lemma_binomial_fits(n as nat, k as nat);
                    lemma_binomial_fits((n - k) as nat, i as nat);
                    assert(factor as int * inner as int <= 0x8000000000000000int * 0x8000000000000000int) by (nonlinear_arith)
                        requires
                            factor <= 0x8000000000000000int,
                            inner <= 0x8000000000000000int,
                    ;
                }
                let magnitude = (factor as i128) * (inner as i128);
                let value = if i % 2 == 0 {
                    magnitude
                } else {
                    -magnitude
                };
                let column = n - k - i;
                proof {
                    lemma_cell_index(k as int, column as int, size as int, size as int);
                    assert(value == coefficient(n as nat, k as nat, column as nat)) by (nonlinear_arith)
                        requires
                            column == n - k - i,
                            magnitude == factor * inner,
                            factor == binomial(n as nat, k as nat),
                            inner == binomial((n - k) as nat, i as nat),
                            i % 2 == 0 ==> value == magnitude && alternating(i as nat) == 1,
                            i % 2 != 0 ==> value == -magnitude && alternating(i as nat) == -1,
                            coefficient(n as nat, k as nat, column as nat) == alternating(i as nat)
                                * binomial(n as nat, k as nat) * binomial((n - k) as nat, i as nat),
                    ;
                }
                let ghost before = result;
                result.data.set(k * size + column, value);
                proof {
                    assert forall|r: int, c: int| 0 <= r < size && 0 <= c < size implies #[trigger] result.at(r, c)
                        == if r < k || (r == k && c + i + 1 > n - k) {
                        coefficient(n as nat, r as nat, c as nat)
                    } else {
                        0
                    } by {
                        lemma_cell_index(r, c, size as int, size as int);
                        if r != k || c != column {
                            lemma_cell_distinct(r, c, k as int, column as int, size as int);
                            assert(result.at(r, c) == before.at(r, c));
                        }
                    }
                }
                proof {
                    lemma_binomial_step_div((n - k) as nat, i as nat);
                    lemma_binomial_fits((n - k) as nat, (i + 1) as nat);
                }
                inner = JITCoefficientMatrixComputer::next_binomial(inner, n - k, i);
                i += 1;
            }
            proof {
                lemma_binomial_step_div(n as nat, k as nat);
                lemma_binomial_fits(n as nat, (k + 1) as nat);
            }
            factor = JITCoefficientMatrixComputer::next_binomial(factor, n, k);
            k += 1;
        }
        result
    }
}

} // verus!
