use crate::binomial::{binomial, MAX_DEGREE};
use crate::matrix::{lemma_same_cells, Matrix};
use vstd::prelude::*;

verus! {

/// +1 for an even exponent, -1 for an odd one: (-1)^e.
pub open spec fn alternating(e: nat) -> int {
    if e % 2 == 0 {
        1
    } else {
        -1
    }
}

/// Cell (k, c) of the degree-n coefficient matrix: the coefficient of t^(n - c) in
/// C(n, k) t^k (1 - t)^(n - k). With i = n - k - c it is (-1)^i C(n, k) C(n - k, i);
/// the cells with k + c > n are zero.
pub open spec fn coefficient(n: nat, k: nat, c: nat) -> int {
    if k + c <= n {
        let i = (n - k - c) as nat;
        alternating(i) * binomial(n, k) * binomial((n - k) as nat, i)
    } else {
        0
    }
}

/// `m` is the (n + 1) x (n + 1) coefficient matrix of a degree-n Bezier curve.
pub open spec fn is_coefficient_matrix(m: Matrix<i128>, n: nat) -> bool {
    &&& m.wf()
    &&& m.rows == n + 1
    &&& m.columns == n + 1
    &&& forall|k: int, c: int|
        0 <= k <= n && 0 <= c <= n ==> #[trigger] m.at(k, c) == coefficient(n, k as nat, c as nat)
}

/// Any two coefficient matrices of one degree are the same matrix, so the cached and
/// the on-the-fly computer agree cell for cell.
pub proof fn lemma_coefficient_matrix_unique(a: Matrix<i128>, b: Matrix<i128>, n: nat)
    requires
        is_coefficient_matrix(a, n),
        is_coefficient_matrix(b, n),
    ensures
        a.data@ == b.data@,
        a.rows == b.rows,
        a.columns == b.columns,
{
    assert forall|i: int, j: int| 0 <= i < a.rows && 0 <= j < a.columns implies #[trigger] a.at(i, j)
        == b.at(i, j) by {}
    lemma_same_cells(a, b);
}

/// Produces the coefficient matrix that turns the power basis [t^n, ..., t, 1]
/// into the weights of the control points of a degree-n curve.
pub trait CoefficientMatrixComputer {
    /// The computer holds what it needs for degree `n`.
    spec fn ready_for(&self, n: nat) -> bool;

    fn compute_for(&self, n: usize) -> (m: Matrix<i128>)
        requires
            n <= MAX_DEGREE,
            self.ready_for(n as nat),
        ensures
            is_coefficient_matrix(m, n as nat),
    ;
}

/// Which of the two computers produces the coefficient matrix.
#[derive(Debug, PartialEq, Eq, Structural, Clone, Copy)]
pub enum CoefficientMatrixComputerType {
    Cached,
    JIT,
}

impl CoefficientMatrixComputerType {
    /// The name shown for the variant.
    pub fn label(&self) -> (r: &'static str)
        ensures
            *self == CoefficientMatrixComputerType::Cached ==> r@ == "Cached"@,
            *self == CoefficientMatrixComputerType::JIT ==> r@ == "JIT"@,
    {
        match self {
            CoefficientMatrixComputerType::Cached => "Cached",
            CoefficientMatrixComputerType::JIT => "JIT",
        }
    }
}

} // verus!
