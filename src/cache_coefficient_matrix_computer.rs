use crate::binomial::{binomial, lemma_binomial_fits, lemma_binomial_symmetric, MAX_DEGREE};
use crate::coefficient_matrix_computer::{
    alternating, coefficient, is_coefficient_matrix, CoefficientMatrixComputer,
};
use crate::matrix::{lemma_cell_distinct, lemma_cell_index, Matrix};
use vstd::prelude::*;

verus! {

/// Width of the stored half of row n: C(n, 0) ..= C(n, (n + 1) / 2).
pub open spec fn half_row_len(n: nat) -> nat {
    (n + 1) / 2 + 1
}

/// Computes coefficient matrices from a cache of Pascal's triangle that grows on demand.
pub struct CacheCoefficientMatrixComputer {
    cache: Vec<Vec<u64>>,
}

impl CacheCoefficientMatrixComputer {
    /// Row n of the cache holds the first half of row n of Pascal's triangle.
    pub closed spec fn wf(&self) -> bool {
        &&& self.cache@.len() <= MAX_DEGREE + 1
        &&& forall|n: int|
            0 <= n < self.cache@.len() ==> {
                &&& (#[trigger] self.cache@[n])@.len() == half_row_len(n as nat)
                &&& forall|k: int|
                    0 <= k < half_row_len(n as nat) ==> #[trigger] self.cache@[n]@[k] == binomial(
                        n as nat,
                        k as nat,
                    )
            }
    }

    /// The number of rows of Pascal's triangle held: degrees `0 .. degrees()` are covered.
    pub closed spec fn degrees(&self) -> nat {
        self.cache@.len()
    }

    /// An empty cache.
    pub fn new() -> (r: CacheCoefficientMatrixComputer)
        ensures
            r.wf(),
            r.degrees() == 0,
    {
        CacheCoefficientMatrixComputer { cache: Vec::new() }
    }

    /// Extends the cache so that it covers degree `n`; a cache that already does is left alone.
    pub fn precompute_cache_for(&mut self, n: usize)
        requires
            old(self).wf(),
            n <= MAX_DEGREE,
        ensures
            final(self).wf(),
            old(self).degrees() > n ==> final(self).degrees() == old(self).degrees(),
            old(self).degrees() <= n ==> final(self).degrees() == n + 1,
    {
        if n + 1 <= self.cache.len() {
            return;
        }
        let mut i: usize = self.cache.len();
        while i <= n
            invariant
                self.wf(),
                self.cache@.len() == i,
                i <= n + 1,
                n <= MAX_DEGREE,
            decreases n + 1 - i,
        {
            let mut row: Vec<u64> = Vec::new();
            row.push(1);
            let mut j: usize = 1;
            while j < (i + 2) / 2
                invariant
                    self.wf(),
                    self.cache@.len() == i,
                    i <= n,
                    n <= MAX_DEGREE,
                    1 <= j,
                    j <= (i + 2) / 2,
                    row@.len() == j,
                    forall|k: int| 0 <= k < j ==> #[trigger] row@[k] == binomial(i as nat, k as nat),
                decreases (i + 2) / 2 - j,
            {
                let prev: &Vec<u64> = &self.cache[i - 1];
                proof {
                    assert(prev@.len() == half_row_len((i - 1) as nat));
                    assert(prev@[j - 1] == binomial((i - 1) as nat, (j - 1) as nat));
                    assert(prev@[j as int] == binomial((i - 1) as nat, j as nat));
                    lemma_binomial_fits(i as nat, j as nat);
                }
                row.push(prev[j - 1] + prev[j]);
                j += 1;
            }
            if i % 2 == 1 {
                proof {
                    lemma_binomial_symmetric(i as nat, (i / 2 + 1) as nat);
                }
                let mirrored = row[i / 2];
                row.push(mirrored);
            }
            self.cache.push(row);
            i += 1;
        }
    }

    /// C(n, k), read from the stored half of row n.
    pub fn get_binomial_coefficient(&self, n: usize, k: usize) -> (r: u64)
        requires
            self.wf(),
            n < self.degrees(),
            k <= n,
        ensures
            r == binomial(n as nat, k as nat),
    {
        let mut k = k;
        if k > (n + 1) / 2 {
            proof {
                lemma_binomial_symmetric(n as nat, k as nat);
            }
            k = n - k;
        }
        self.cache[n][k]
    }
}

impl CoefficientMatrixComputer for CacheCoefficientMatrixComputer {
    open spec fn ready_for(&self, n: nat) -> bool {
        self.wf() && n < self.degrees()
    }

    fn compute_for(&self, n: usize) -> (m: Matrix<i128>) {
        let size = n + 1;
        proof {
            assert(size * size <= 64 * 64) by (nonlinear_arith)
                requires
                    size <= 64,
            ;
        }
        let mut result = Matrix::new(size, size);
        proof {
            assert forall|r: int, c: int| 0 <= r < size && 0 <= c < size implies #[trigger] result.at(r, c) == 0 by {
                lemma_cell_index(r, c, size as int, size as int);
            }
        }
        let mut k: usize = 0;
        while k <= n
            invariant
                self.wf(),
                n < self.degrees(),
                n <= MAX_DEGREE,
                size == n + 1,
                result.wf(),
                result.rows == size,
                result.columns == size,
                k <= size,
                forall|r: int, c: int|
                    0 <= r < size && 0 <= c < size ==> #[trigger] result.at(r, c) == if r < k {
                        coefficient(n as nat, r as nat, c as nat)
                    } else {
                        0
                    },
            decreases size - k,
        {
            let factor = self.get_binomial_coefficient(n, k);
            let mut i: usize = 0;
            while i <= n - k
                invariant
                    self.wf(),
                    n < self.degrees(),
                    n <= MAX_DEGREE,
                    size == n + 1,
                    k <= n,
                    factor == binomial(n as nat, k as nat),
                    result.wf(),
                    result.rows == size,
                    result.columns == size,
                    i <= n - k + 1,
                    forall|r: int, c: int|
                        0 <= r < size && 0 <= c < size ==> #[trigger] result.at(r, c) == if r < k
                            || (r == k && c + i > n - k) {
                            coefficient(n as nat, r as nat, c as nat)
                        } else {
                            0
                        },
                decreases n - k + 1 - i,
            {
                let inner = self.get_binomial_coefficient(n - k, i);
                proof {
                    lemma_binomial_fits(n as nat, k as nat);
                    lemma_binomial_fits((n - k) as nat, i as nat);
                    assert(factor as int * inner as int <= 0x8000000000000000int * 0x8000000000000000int) by (nonlinear_arith)
                        requires
                            factor <= 0x8000000000000000int,
                            inner <= 0x8000000000000000int,
                    ;
                }
                let magnitude = (factor as i128) * (inner as i128);
                let value = if i % 2 == 0 {
                    magnitude
                } else {
                    -magnitude
                };
                let column = n - k - i;
                proof {
                    lemma_cell_index(k as int, column as int, size as int, size as int);
                    assert(value == coefficient(n as nat, k as nat, column as nat)) by (nonlinear_arith)
                        requires
                            column == n - k - i,
                            magnitude == factor * inner,
                            factor == binomial(n as nat, k as nat),
                            inner == binomial((n - k) as nat, i as nat),
                            i % 2 == 0 ==> value == magnitude && alternating(i as nat) == 1,
                            i % 2 != 0 ==> value == -magnitude && alternating(i as nat) == -1,
                            coefficient(n as nat, k as nat, column as nat) == alternating(i as nat)
                                * binomial(n as nat, k as nat) * binomial((n - k) as nat, i as nat),
                    ;
                }
                let ghost before = result;
                result.data.set(k * size + column, value);
                proof {
                    assert forall|r: int, c: int| 0 <= r < size && 0 <= c < size implies #[trigger] result.at(r, c)
                        == if r < k || (r == k && c + i + 1 > n - k) {
                        coefficient(n as nat, r as nat, c as nat)
                    } else {
                        0
                    } by {
                        lemma_cell_index(r, c, size as int, size as int);
                        if r != k || c != column {
                            lemma_cell_distinct(r, c, k as int, column as int, size as int);
                            assert(result.at(r, c) == before.at(r, c));
                        }
                    }
                }
                i += 1;
            }
            k += 1;
        }
        result
    }
}

} // verus!
