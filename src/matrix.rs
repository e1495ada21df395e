use vstd::prelude::*;

verus! {

/// A dense matrix stored row by row: cell (i, j) sits at `data[i * columns + j]`.
#[derive(Debug, Clone)]
pub struct Matrix<T> {
    pub data: Vec<T>,
    pub rows: usize,
    pub columns: usize,
}

/// Where cell (i, j) of a matrix with `columns` columns lies, and that it lies inside.
pub proof fn lemma_cell_index(i: int, j: int, rows: int, columns: int)
    requires
        0 <= i < rows,
        0 <= j,
        0 <= columns,
    ensures
        0 <= i * columns,
        j < columns ==> i * columns + j < rows * columns,
        i * columns + columns <= rows * columns,
{
    assert(0 <= i * columns) by (nonlinear_arith)
        requires
            0 <= i,
            0 <= columns,
    ;
    assert(i * columns + columns <= rows * columns) by (nonlinear_arith)
        requires
            i + 1 <= rows,
            0 <= columns,
    ;
}

impl<T> Matrix<T> {
    /// The data holds exactly `rows * columns` cells.
    pub open spec fn wf(&self) -> bool {
        &&& self.data@.len() == self.rows * self.columns
        &&& self.rows * self.columns <= usize::MAX
    }

    pub open spec fn at(&self, i: int, j: int) -> T {
        self.data@[i * self.columns + j]
    }

    pub open spec fn row(&self, i: int) -> Seq<T> {
        self.data@.subrange(i * self.columns, i * self.columns + self.columns)
    }
}

impl<T: Copy> Matrix<T> {
    /// Builds a matrix from a rectangular table of rows.
    pub fn from_table(table: &[&[T]]) -> (m: Matrix<T>)
        requires
            table@.len() >= 1,
            forall|i: int| 0 <= i < table@.len() ==> (#[trigger] table@[i])@.len() == table@[0]@.len(),
            table@.len() * table@[0]@.len() <= usize::MAX,
        ensures
            m.wf(),
            m.rows == table@.len(),
            m.columns == table@[0]@.len(),
            forall|i: int, j: int|
                0 <= i < m.rows && 0 <= j < m.columns ==> m.at(i, j) == table@[i]@[j],
    {
        let rows = table.len();
        let columns = table[0].len();
        let mut data: Vec<T> = Vec::new();
        let mut i: usize = 0;
        while i < rows
            invariant
                rows == table@.len(),
                columns == table@[0]@.len(),
                rows * columns <= usize::MAX,
                forall|r: int| 0 <= r < table@.len() ==> (#[trigger] table@[r])@.len() == columns,
                i <= rows,
                data@.len() == i * columns,
                forall|r: int, c: int|
                    0 <= r < i && 0 <= c < columns ==> data@[r * columns + c] == table@[r]@[c],
            decreases rows - i,
        {
            let row: &[T] = table[i];
            let mut j: usize = 0;
            while j < columns
                invariant
                    rows == table@.len(),
                    columns == table@[0]@.len(),
                    rows * columns <= usize::MAX,
                    i < rows,
                    row@ == table@[i as int]@,
                    row@.len() == columns,
                    j <= columns,
                    data@.len() == i * columns + j,
                    forall|r: int, c: int|
                        0 <= r < i && 0 <= c < columns ==> data@[r * columns + c] == table@[r]@[c],
                    forall|c: int| 0 <= c < j ==> data@[i * columns + c] == table@[i as int]@[c],
                decreases columns - j,
            {
                proof {
                    lemma_cell_index(i as int, j as int, rows as int, columns as int);
                    assert forall|r: int, c: int| 0 <= r < i && 0 <= c < columns implies r * columns
                        + c < i * columns && data@[r * columns + c] == #[trigger] table@[r]@[c] by {
                        lemma_cell_index(r, c, i as int, columns as int);
                    }
                }
                data.push(row[j]);
                j += 1;
            }
            proof {
                assert(data@.len() == (i + 1) * columns) by (nonlinear_arith)
                    requires
                        data@.len() == i * columns + columns,
                ;
                assert forall|r: int, c: int| 0 <= r < i + 1 && 0 <= c < columns implies data@[r
                    * columns + c] == table@[r]@[c] by {
                    if r == i {
                    }
                }
            }
            i += 1;
        }
        Matrix { data, rows, columns }
    }

    /// Borrows row `i`.
    pub fn row_at(&self, i: usize) -> (r: &[T])
        requires
            self.wf(),
            i < self.rows,
        ensures
            r@ == self.row(i as int),
    {
        proof {
            lemma_cell_index(i as int, 0, self.rows as int, self.columns as int);
        }
        let all: &[T] = self.data.as_slice();
        let (_, rest) = all.split_at(i * self.columns);
        let (row, _) = rest.split_at(self.columns);
        proof {
            assert(row@ =~= self.row(i as int));
        }
        row
    }

    /// Borrows row `i` for writing; the rest of the matrix stays as it was.
    pub fn row_at_mut(&mut self, i: usize) -> (r: &mut [T])
        requires
            old(self).wf(),
            i < old(self).rows,
        ensures
            r@ == old(self).row(i as int),
            final(self).rows == old(self).rows,
            final(self).columns == old(self).columns,
            final(self).data@ == old(self).data@.subrange(0, i * old(self).columns) + final(r)@
                + old(self).data@.subrange(
                i * old(self).columns + old(self).columns,
                old(self).data@.len() as int,
            ),
    {
        proof {
            lemma_cell_index(i as int, 0, self.rows as int, self.columns as int);
        }
        let start = i * self.columns;
        let columns = self.columns;
        let all: &mut [T] = self.data.as_mut_slice();
        let (_, rest) = all.split_at_mut(start);
        let (row, _) = rest.split_at_mut(columns);
        row
    }
}

/// The k-th term of the dot product of row i of `a` with column j of `b`.
pub open spec fn term(a: Matrix<i128>, b: Matrix<i128>, i: int, j: int, k: int) -> int {
    a.at(i, k) as int * b.at(k, j) as int
}

/// Sum of the first `m` terms of row i of `a` times column j of `b`.
pub open spec fn dot(a: Matrix<i128>, b: Matrix<i128>, i: int, j: int, m: nat) -> int
    decreases m,
{
    if m == 0 {
        0
    } else {
        dot(a, b, i, j, (m - 1) as nat) + term(a, b, i, j, m - 1)
    }
}

pub open spec fn fits_i128(x: int) -> bool {
    i128::MIN <= x <= i128::MAX
}

/// The product `a * b` can be accumulated in `i128`: the result has at most
/// `usize::MAX` cells, and every term and every running sum fits.
pub open spec fn product_fits(a: Matrix<i128>, b: Matrix<i128>) -> bool {
    &&& a.rows * b.columns <= usize::MAX
    &&& forall|i: int, j: int, k: int|
        0 <= i < a.rows && 0 <= j < b.columns && 0 <= k < a.columns ==> fits_i128(
            #[trigger] term(a, b, i, j, k),
        ) && fits_i128(dot(a, b, i, j, (k + 1) as nat))
}

/// `p` is the product of `a` and `b`.
pub open spec fn is_product(a: Matrix<i128>, b: Matrix<i128>, p: Matrix<i128>) -> bool {
    &&& p.wf()
    &&& p.rows == a.rows
    &&& p.columns == b.columns
    &&& forall|i: int, j: int|
        0 <= i < p.rows && 0 <= j < p.columns ==> #[trigger] p.at(i, j) == dot(
            a,
            b,
            i,
            j,
            a.columns as nat,
        )
}

impl Matrix<i128> {
    /// A `rows` by `columns` matrix of zeros.
    pub fn new(rows: usize, columns: usize) -> (m: Matrix<i128>)
        requires
            rows * columns <= usize::MAX,
        ensures
            m.wf(),
            m.rows == rows,
            m.columns == columns,
            forall|k: int| 0 <= k < m.data@.len() ==> m.data@[k] == 0,
    {
        let size = rows * columns;
        let mut data: Vec<i128> = Vec::new();
        let mut k: usize = 0;
        while k < size
            invariant
                k <= size,
                data@.len() == k,
                forall|x: int| 0 <= x < k ==> data@[x] == 0,
            decreases size - k,
        {
            data.push(0);
            k += 1;
        }
        Matrix { data, rows, columns }
    }

    /// The product `self * other`, for operands whose shapes the caller knows to agree.
    pub fn multiply_unchecked(&self, other: &Matrix<i128>) -> (p: Matrix<i128>)
        requires
            self.wf(),
            other.wf(),
            self.columns == other.rows,
            product_fits(*self, *other),
        ensures
            is_product(*self, *other, p),
    {
        let mut result = Matrix::new(self.rows, other.columns);
        let mut i: usize = 0;
        while i < result.rows
            invariant
                self.wf(),
                other.wf(),
                self.columns == other.rows,
                product_fits(*self, *other),
                result.wf(),
                result.rows == self.rows,
                result.columns == other.columns,
                i <= result.rows,
                forall|r: int, c: int|
                    0 <= r < i && 0 <= c < result.columns ==> #[trigger] result.at(r, c) == dot(
                        *self,
                        *other,
                        r,
                        c,
                        self.columns as nat,
                    ),
            decreases result.rows - i,
        {
            let mut j: usize = 0;
            while j < result.columns
                invariant
                    self.wf(),
                    other.wf(),
                    self.columns == other.rows,
                    product_fits(*self, *other),
                    result.wf(),
                    result.rows == self.rows,
                    result.columns == other.columns,
                    i < result.rows,
                    j <= result.columns,
                    forall|r: int, c: int|
                        0 <= r < i && 0 <= c < result.columns ==> #[trigger] result.at(r, c)
                            == dot(*self, *other, r, c, self.columns as nat),
                    forall|c: int|
                        0 <= c < j ==> #[trigger] result.at(i as int, c) == dot(
                            *self,
                            *other,
                            i as int,
                            c,
                            self.columns as nat,
                        ),
                decreases result.columns - j,
            {
                let mut sum: i128 = 0;
                let mut k: usize = 0;
                while k < self.columns
                    invariant
                        self.wf(),
                        other.wf(),
                        self.columns == other.rows,
                        product_fits(*self, *other),
                        i < self.rows,
                        j < other.columns,
                        k <= self.columns,
                        sum == dot(*self, *other, i as int, j as int, k as nat),
                    decreases self.columns - k,
                {
                    proof {
                        lemma_cell_index(i as int, k as int, self.rows as int, self.columns as int);
                        lemma_cell_index(k as int, j as int, other.rows as int, other.columns as int);
                        assert(fits_i128(term(*self, *other, i as int, j as int, k as int)));
                    }
                    let x = self.data[i * self.columns + k];
                    let y = other.data[k * other.columns + j];
                    sum = sum + x * y;
                    k += 1;
                }
                proof {
                    lemma_cell_index(i as int, j as int, result.rows as int, result.columns as int);
                }
                let ghost before = result;
                result.data.set(i * result.columns + j, sum);
                proof {
                    assert forall|r: int, c: int| 0 <= r < i && 0 <= c < result.columns implies #[trigger] result.at(r, c)
                        == dot(*self, *other, r, c, self.columns as nat) by {
                        lemma_cell_index(r, c, result.rows as int, result.columns as int);
                        lemma_cell_distinct(r, c, i as int, j as int, result.columns as int);
                        assert(result.at(r, c) == before.at(r, c));
                    }
                    assert forall|c: int| 0 <= c < j + 1 implies #[trigger] result.at(i as int, c)
                        == dot(*self, *other, i as int, c, self.columns as nat) by {
                        lemma_cell_index(i as int, c, result.rows as int, result.columns as int);
                        if c < j {
                            lemma_cell_distinct(i as int, c, i as int, j as int, result.columns as int);
                            assert(result.at(i as int, c) == before.at(i as int, c));
                        }
                    }
                }
                j += 1;
            }
            i += 1;
        }
        result
    }

    /// The product `self * other`, or `None` when the column count of `self`
    /// differs from the row count of `other`.
    pub fn multiply(&self, other: &Matrix<i128>) -> (p: Option<Matrix<i128>>)
        requires
            self.wf(),
            other.wf(),
            self.columns == other.rows ==> product_fits(*self, *other),
        ensures
            p.is_none() <==> self.columns != other.rows,
            p matches Some(m) ==> is_product(*self, *other, m),
    {
        if self.columns != other.rows {
            return None;
        }
        Some(self.multiply_unchecked(other))
    }
}

/// Two distinct cells of a matrix lie at distinct places in its data.
pub proof fn lemma_cell_distinct(r: int, c: int, i: int, j: int, columns: int)
    requires
        0 <= r,
        0 <= i,
        0 <= c < columns,
        0 <= j < columns,
        r != i || c != j,
    ensures
        r * columns + c != i * columns + j,
{
    if r == i {
    } else if r < i {
        assert(r * columns + c < i * columns + j) by (nonlinear_arith)
            requires
                r + 1 <= i,
                0 <= c < columns,
                0 <= j,
        ;
    } else {
        assert(i * columns + j < r * columns + c) by (nonlinear_arith)
            requires
                i + 1 <= r,
                0 <= j < columns,
                0 <= c,
        ;
    }
}

/// Matrices of one shape with the same cells hold the same data.
pub proof fn lemma_same_cells<T>(p: Matrix<T>, q: Matrix<T>)
    requires
        p.wf(),
        q.wf(),
        p.rows == q.rows,
        p.columns == q.columns,
        forall|i: int, j: int|
            0 <= i < p.rows && 0 <= j < p.columns ==> #[trigger] p.at(i, j) == q.at(i, j),
    ensures
        p.data@ == q.data@,
{
    let c = p.columns as int;
    assert forall|x: int| 0 <= x < p.data@.len() implies p.data@[x] == q.data@[x] by {
        vstd::arithmetic::div_mod::lemma_fundamental_div_mod(x, c);
        vstd::arithmetic::div_mod::lemma_mod_bound(x, c);
        let i = x / c;
        let j = x % c;
        assert(0 <= i < p.rows) by (nonlinear_arith)
            requires
                x == c * i + j,
                0 <= j < c,
                0 <= x < p.rows * c,
        ;
        assert(i * c + j == x) by (nonlinear_arith)
            requires
                x == c * i + j,
        ;
        assert(p.at(i, j) == q.at(i, j));
    }
    assert(p.data@ =~= q.data@);
}

/// A square matrix with ones on the diagonal and zeros elsewhere.
pub open spec fn is_identity(m: Matrix<i128>) -> bool {
    &&& m.wf()
    &&& m.rows == m.columns
    &&& forall|i: int, j: int|
        0 <= i < m.rows && 0 <= j < m.columns ==> #[trigger] m.at(i, j) == if i == j {
            1i128
        } else {
            0i128
        }
}

/// When column j of `b` is zero but for a one in row s, the dot product picks cell (i, s) of `a`.
pub proof fn lemma_dot_unit_column(a: Matrix<i128>, b: Matrix<i128>, i: int, j: int, m: nat, s: int)
    requires
        forall|k: int| 0 <= k < m ==> #[trigger] b.at(k, j) == if k == s {
            1i128
        } else {
            0i128
        },
    ensures
        dot(a, b, i, j, m) == if 0 <= s < m {
            a.at(i, s) as int
        } else {
            0
        },
    decreases m,
{
    if m > 0 {
        lemma_dot_unit_column(a, b, i, j, (m - 1) as nat, s);
        let x = a.at(i, m - 1) as int;
        let y = b.at(m - 1, j) as int;
        assert(y == if m - 1 == s { 1int } else { 0int });
        assert(x * y == if m - 1 == s { x } else { 0 }) by (nonlinear_arith)
            requires
                y == if m - 1 == s { 1int } else { 0int },
        ;
        assert(term(a, b, i, j, m - 1) == x * y);
    }
}

/// When row i of `a` is zero but for a one in column s, the dot product picks cell (s, j) of `b`.
pub proof fn lemma_dot_unit_row(a: Matrix<i128>, b: Matrix<i128>, i: int, j: int, m: nat, s: int)
    requires
        forall|k: int| 0 <= k < m ==> #[trigger] a.at(i, k) == if k == s {
            1i128
        } else {
            0i128
        },
    ensures
        dot(a, b, i, j, m) == if 0 <= s < m {
            b.at(s, j) as int
        } else {
            0
        },
    decreases m,
{
    if m > 0 {
        lemma_dot_unit_row(a, b, i, j, (m - 1) as nat, s);
        assert(a.at(i, m - 1) == if m - 1 == s { 1i128 } else { 0i128 });
    }
}

/// The identity is neutral on both sides: I * A == A and A * I == A.
pub proof fn lemma_identity_neutral(a: Matrix<i128>, id: Matrix<i128>, left: Matrix<i128>, right: Matrix<i128>)
    requires
        a.wf(),
        is_identity(id),
        id.columns == a.rows ==> is_product(id, a, left),
        a.columns == id.rows ==> is_product(a, id, right),
    ensures
        id.columns == a.rows ==> left.data@ == a.data@ && left.rows == a.rows && left.columns
            == a.columns,
        a.columns == id.rows ==> right.data@ == a.data@ && right.rows == a.rows && right.columns
            == a.columns,
{
    if id.columns == a.rows {
        assert forall|i: int, j: int| 0 <= i < left.rows && 0 <= j < left.columns implies #[trigger] left.at(i, j)
            == a.at(i, j) by {
            assert forall|k: int| 0 <= k < id.columns implies #[trigger] id.at(i, k) == if k == i {
                1i128
            } else {
                0i128
            } by {}
            lemma_dot_unit_row(id, a, i, j, id.columns as nat, i);
        }
        lemma_same_cells(left, a);
    }
    if a.columns == id.rows {
        assert forall|i: int, j: int| 0 <= i < right.rows && 0 <= j < right.columns implies #[trigger] right.at(i, j)
            == a.at(i, j) by {
            assert forall|k: int| 0 <= k < a.columns implies #[trigger] id.at(k, j) == if k == j {
                1i128
            } else {
                0i128
            } by {}
            lemma_dot_unit_column(a, id, i, j, a.columns as nat, j);
        }
        lemma_same_cells(right, a);
    }
}

/// Sum over k < `rows` of f(k, l).
pub open spec fn column_total(f: spec_fn(int, int) -> int, l: int, rows: nat) -> int
    decreases rows,
{
    if rows == 0 {
        0
    } else {
        column_total(f, l, (rows - 1) as nat) + f(rows - 1, l)
    }
}

/// Sum over l < `columns` of f(k, l).
pub open spec fn row_total(f: spec_fn(int, int) -> int, k: int, columns: nat) -> int
    decreases columns,
{
    if columns == 0 {
        0
    } else {
        row_total(f, k, (columns - 1) as nat) + f(k, columns - 1)
    }
}

/// Sum over l < `columns` of the column totals.
pub open spec fn total_by_columns(f: spec_fn(int, int) -> int, rows: nat, columns: nat) -> int
    decreases columns,
{
    if columns == 0 {
        0
    } else {
        total_by_columns(f, rows, (columns - 1) as nat) + column_total(f, columns - 1, rows)
    }
}

/// Sum over k < `rows` of the row totals.
pub open spec fn total_by_rows(f: spec_fn(int, int) -> int, rows: nat, columns: nat) -> int
    decreases rows,
{
    if rows == 0 {
        0
    } else {
        total_by_rows(f, (rows - 1) as nat, columns) + row_total(f, rows - 1, columns)
    }
}

/// Adding one more column to every row total adds that column's total.
proof fn lemma_total_by_rows_extend(f: spec_fn(int, int) -> int, rows: nat, columns: nat)
    requires
        columns >= 1,
    ensures
        total_by_rows(f, rows, columns) == total_by_rows(f, rows, (columns - 1) as nat)
            + column_total(f, columns - 1, rows),
    decreases rows,
{
    if rows > 0 {
        lemma_total_by_rows_extend(f, (rows - 1) as nat, columns);
    }
}

/// A finite double sum may be taken in either order.
proof fn lemma_totals_agree(f: spec_fn(int, int) -> int, rows: nat, columns: nat)
    ensures
        total_by_columns(f, rows, columns) == total_by_rows(f, rows, columns),
    decreases columns,
{
    if columns > 0 {
        lemma_totals_agree(f, rows, (columns - 1) as nat);
        lemma_total_by_rows_extend(f, rows, columns);
    } else {
        lemma_total_by_rows_empty(f, rows);
    }
}

proof fn lemma_total_by_rows_empty(f: spec_fn(int, int) -> int, rows: nat)
    ensures
        total_by_rows(f, rows, 0) == 0,
    decreases rows,
{
    if rows > 0 {
        lemma_total_by_rows_empty(f, (rows - 1) as nat);
    }
}

/// The terms a(i, k) * b(k, l) * c(l, j) of cell (i, j) of a * b * c.
pub open spec fn triple_term(a: Matrix<i128>, b: Matrix<i128>, c: Matrix<i128>, i: int, j: int) -> spec_fn(
    int,
    int,
) -> int {
    |k: int, l: int| a.at(i, k) as int * b.at(k, l) as int * c.at(l, j) as int
}

/// (a * b)(i, l) times c(l, j), spread over k.
proof fn lemma_dot_times(a: Matrix<i128>, b: Matrix<i128>, c: Matrix<i128>, i: int, l: int, j: int, m: nat)
    ensures
        dot(a, b, i, l, m) * c.at(l, j) as int == column_total(triple_term(a, b, c, i, j), l, m),
    decreases m,
{
    if m > 0 {
        lemma_dot_times(a, b, c, i, l, j, (m - 1) as nat);
        let x = a.at(i, m - 1) as int;
        let y = b.at(m - 1, l) as int;
        let z = c.at(l, j) as int;
        let d = dot(a, b, i, l, (m - 1) as nat);
        assert((d + x * y) * z == d * z + x * y * z) by (nonlinear_arith);
    }
}

/// a(i, k) times (b * c)(k, j), spread over l.
proof fn lemma_times_dot(a: Matrix<i128>, b: Matrix<i128>, c: Matrix<i128>, i: int, k: int, j: int, m: nat)
    ensures
        a.at(i, k) as int * dot(b, c, k, j, m) == row_total(triple_term(a, b, c, i, j), k, m),
    decreases m,
{
    if m > 0 {
        lemma_times_dot(a, b, c, i, k, j, (m - 1) as nat);
        let x = a.at(i, k) as int;
        let y = b.at(k, m - 1) as int;
        let z = c.at(m - 1, j) as int;
        let d = dot(b, c, k, j, (m - 1) as nat);
        assert(x * (d + y * z) == x * d + x * y * z) by (nonlinear_arith);
    }
}

proof fn lemma_left_grouping(a: Matrix<i128>, b: Matrix<i128>, c: Matrix<i128>, ab: Matrix<i128>, i: int, j: int, m: nat)
    requires
        is_product(a, b, ab),
        0 <= i < ab.rows,
        m <= ab.columns,
    ensures
        dot(ab, c, i, j, m) == total_by_columns(triple_term(a, b, c, i, j), a.columns as nat, m),
    decreases m,
{
    if m > 0 {
        lemma_left_grouping(a, b, c, ab, i, j, (m - 1) as nat);
        assert(ab.at(i, m - 1) == dot(a, b, i, m - 1, a.columns as nat));
        lemma_dot_times(a, b, c, i, m - 1, j, a.columns as nat);
    }
}

proof fn lemma_right_grouping(a: Matrix<i128>, b: Matrix<i128>, c: Matrix<i128>, bc: Matrix<i128>, i: int, j: int, m: nat)
    requires
        is_product(b, c, bc),
        0 <= j < bc.columns,
        m <= bc.rows,
    ensures
        dot(a, bc, i, j, m) == total_by_rows(triple_term(a, b, c, i, j), m, b.columns as nat),
    decreases m,
{
    if m > 0 {
        lemma_right_grouping(a, b, c, bc, i, j, (m - 1) as nat);
        assert(bc.at(m - 1, j) == dot(b, c, m - 1, j, b.columns as nat));
        lemma_times_dot(a, b, c, i, m - 1, j, b.columns as nat);
    }
}

/// The product is associative: (a * b) * c == a * (b * c).
pub proof fn lemma_product_associative(
    a: Matrix<i128>,
    b: Matrix<i128>,
    c: Matrix<i128>,
    ab: Matrix<i128>,
    ab_c: Matrix<i128>,
    bc: Matrix<i128>,
    a_bc: Matrix<i128>,
)
    requires
        a.columns == b.rows,
        b.columns == c.rows,
        is_product(a, b, ab),
        is_product(ab, c, ab_c),
        is_product(b, c, bc),
        is_product(a, bc, a_bc),
    ensures
        ab_c.rows == a_bc.rows,
        ab_c.columns == a_bc.columns,
        ab_c.data@ == a_bc.data@,
{
    assert forall|i: int, j: int| 0 <= i < ab_c.rows && 0 <= j < ab_c.columns implies #[trigger] ab_c.at(i, j)
        == a_bc.at(i, j) by {
        let f = triple_term(a, b, c, i, j);
        lemma_left_grouping(a, b, c, ab, i, j, ab.columns as nat);
        lemma_right_grouping(a, b, c, bc, i, j, bc.rows as nat);
        lemma_totals_agree(f, a.columns as nat, b.columns as nat);
    }
    lemma_same_cells(ab_c, a_bc);
}

} // verus!
