use crate::binomial::{
    binomial, lemma_binomial_above, lemma_binomial_diagonal, lemma_binomial_symmetric,
};
use crate::coefficient_matrix_computer::{alternating, coefficient, is_coefficient_matrix};
use crate::matrix::{dot, is_product, lemma_dot_unit_column, term, Matrix};
use vstd::prelude::*;

verus! {

/// t^e.
pub open spec fn power(t: int, e: nat) -> int
    decreases e,
{
    if e == 0 {
        1
    } else {
        t * power(t, (e - 1) as nat)
    }
}

/// `v` is the column [t^n, ..., t, 1] of the powers of t, highest first.
pub open spec fn is_power_column(v: Matrix<i128>, n: nat, t: int) -> bool {
    &&& v.wf()
    &&& v.rows == n + 1
    &&& v.columns == 1
    &&& forall|c: int| 0 <= c <= n ==> #[trigger] v.at(c, 0) == power(t, (n - c) as nat)
}

/// Sum of the first `len` cells of row k of the degree-n coefficient matrix.
pub open spec fn row_sum(n: nat, k: nat, len: nat) -> int
    decreases len,
{
    if len == 0 {
        0
    } else {
        row_sum(n, k, (len - 1) as nat) + coefficient(n, k, (len - 1) as nat)
    }
}

proof fn lemma_power_zero(e: nat)
    ensures
        power(0, e) == if e == 0 {
            1int
        } else {
            0int
        },
{
}

proof fn lemma_power_one(e: nat)
    ensures
        power(1, e) == 1,
    decreases e,
{
    if e > 0 {
        lemma_power_one((e - 1) as nat);
    }
}

/// Partial row sums: with m = n - k >= 1, the first `len` cells of row k add up to
/// C(n, k) * (-1)^(m - len + 1) * C(m - 1, len - 1).
proof fn lemma_row_sum_partial(n: nat, k: nat, len: nat)
    requires
        k < n,
        1 <= len <= n - k + 1,
    ensures
        row_sum(n, k, len) == binomial(n, k) * alternating((n - k - (len - 1)) as nat) * binomial(
            (n - k - 1) as nat,
            (len - 1) as nat,
        ),
    decreases len,
{
    let m = (n - k) as nat;
    let f = binomial(n, k) as int;
    if len == 1 {
        lemma_binomial_diagonal(m);
        assert(row_sum(n, k, 0) == 0);
        assert(row_sum(n, k, 1) == coefficient(n, k, 0));
        assert(coefficient(n, k, 0) == alternating(m) * f * binomial(m, m));
        assert(binomial((m - 1) as nat, 0) == 1);
        assert(f * alternating(m) * 1 == alternating(m) * f * 1) by (nonlinear_arith);
    } else {
        let j = (len - 1) as nat;
        lemma_row_sum_partial(n, k, j);
        let previous = binomial((m - 1) as nat, (j - 1) as nat) as int;
        let next = binomial((m - 1) as nat, j) as int;
        let s = alternating((m - j) as nat);
        lemma_binomial_symmetric(m, j);
        assert(binomial(m, j) == previous + next);
        assert(binomial(m, (m - j) as nat) == previous + next);
        assert(alternating((m - (j - 1)) as nat) == -s);
        assert(coefficient(n, k, j) == s * f * (previous + next));
        assert(row_sum(n, k, len) == row_sum(n, k, j) + coefficient(n, k, j));
        assert(f * (-s) * previous + s * f * (previous + next) == f * s * next) by (nonlinear_arith);
    }
}

/// The cells past column n - k of row k are zero, so the row sum stops growing there.
proof fn lemma_row_sum_tail(n: nat, k: nat, len: nat)
    requires
        k <= n,
        n - k + 1 <= len,
    ensures
        row_sum(n, k, len) == row_sum(n, k, (n - k + 1) as nat),
    decreases len,
{
    if len > n - k + 1 {
        lemma_row_sum_tail(n, k, (len - 1) as nat);
    }
}

/// Row k of the degree-n coefficient matrix sums to 1 for k == n and to 0 otherwise.
proof fn lemma_row_sum_total(n: nat, k: nat)
    requires
        k <= n,
    ensures
        row_sum(n, k, n + 1) == if k == n {
            1int
        } else {
            0int
        },
{
    lemma_row_sum_tail(n, k, n + 1);
    if k == n {
        lemma_binomial_diagonal(n);
        lemma_binomial_diagonal(0);
        assert(row_sum(n, k, 0) == 0);
        assert(row_sum(n, k, 1) == coefficient(n, k, 0));
    } else {
        lemma_row_sum_partial(n, k, (n - k + 1) as nat);
        lemma_binomial_above((n - k - 1) as nat, (n - k) as nat);
    }
}

/// Against the all-ones column the coefficient matrix reproduces its row sums.
proof fn lemma_dot_ones(m: Matrix<i128>, v: Matrix<i128>, n: nat, k: int, len: nat)
    requires
        is_coefficient_matrix(m, n),
        is_power_column(v, n, 1),
        0 <= k <= n,
        len <= n + 1,
    ensures
        dot(m, v, k, 0, len) == row_sum(n, k as nat, len),
    decreases len,
{
    if len > 0 {
        lemma_dot_ones(m, v, n, k, (len - 1) as nat);
        lemma_power_one((n - (len - 1)) as nat);
        assert(v.at(len - 1, 0) == 1);
        assert(m.at(k, len - 1) == coefficient(n, k as nat, (len - 1) as nat));
        assert(term(m, v, k, 0, len - 1) == m.at(k, len - 1) as int * 1);
    }
}

/// A Bezier curve starts at its first control point. With `weights` the coefficient
/// matrix times the powers of t = 0 and `point` the control points times `weights`,
/// each coordinate of `point` is that of control point 0.
pub proof fn lemma_curve_starts_at_first_point(
    n: nat,
    coefficients: Matrix<i128>,
    powers: Matrix<i128>,
    weights: Matrix<i128>,
    control_points: Matrix<i128>,
    point: Matrix<i128>,
)
    requires
        is_coefficient_matrix(coefficients, n),
        is_power_column(powers, n, 0),
        is_product(coefficients, powers, weights),
        control_points.wf(),
        control_points.columns == n + 1,
        is_product(control_points, weights, point),
    ensures
        point.rows == control_points.rows,
        point.columns == 1,
        forall|r: int| 0 <= r < control_points.rows ==> #[trigger] point.at(r, 0) == control_points.at(r, 0),
{
    assert forall|c: int| 0 <= c < n + 1 implies #[trigger] powers.at(c, 0) == if c == n {
        1i128
    } else {
        0i128
    } by {
        lemma_power_zero((n - c) as nat);
    }
    assert forall|k: int| 0 <= k < n + 1 implies #[trigger] weights.at(k, 0) == if k == 0 {
        1i128
    } else {
        0i128
    } by {
        lemma_dot_unit_column(coefficients, powers, k, 0, n + 1, n as int);
        assert(coefficients.at(k, n as int) == coefficient(n, k as nat, n));
        if k == 0 {
            lemma_binomial_diagonal(n);
        }
    }
    assert forall|r: int| 0 <= r < control_points.rows implies #[trigger] point.at(r, 0)
        == control_points.at(r, 0) by {
        lemma_dot_unit_column(control_points, weights, r, 0, n + 1, 0);
    }
}

/// A Bezier curve ends at its last control point: as above with t = 1, each coordinate
/// of `point` is that of control point n.
pub proof fn lemma_curve_ends_at_last_point(
    n: nat,
    coefficients: Matrix<i128>,
    powers: Matrix<i128>,
    weights: Matrix<i128>,
    control_points: Matrix<i128>,
    point: Matrix<i128>,
)
    requires
        is_coefficient_matrix(coefficients, n),
        is_power_column(powers, n, 1),
        is_product(coefficients, powers, weights),
        control_points.wf(),
        control_points.columns == n + 1,
        is_product(control_points, weights, point),
    ensures
        point.rows == control_points.rows,
        point.columns == 1,
        forall|r: int|
            0 <= r < control_points.rows ==> #[trigger] point.at(r, 0) == control_points.at(
                r,
                n as int,
            ),
{
    assert forall|k: int| 0 <= k < n + 1 implies #[trigger] weights.at(k, 0) == if k == n {
        1i128
    } else {
        0i128
    } by {
        lemma_dot_ones(coefficients, powers, n, k, n + 1);
        lemma_row_sum_total(n, k as nat);
    }
    assert forall|r: int| 0 <= r < control_points.rows implies #[trigger] point.at(r, 0)
        == control_points.at(r, n as int) by {
        lemma_dot_unit_column(control_points, weights, r, 0, n + 1, n as int);
    }
}

} // verus!
