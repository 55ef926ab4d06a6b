//! Dense column-major storage for design matrices and for the cubes of
//! third-order derivatives. Entry `(row, col)` of an `nrow`-by-`ncol`
//! matrix lives at position `row + nrow * col` of the backing vector;
//! entry `(i, j, k)` of an `n`-cube lives at `i + n * (j + n * k)`.

use vstd::prelude::*;

verus! {

/// Position of entry `(row, col)` in column-major order.
pub open spec fn column_major_position(nrow: nat, row: int, col: int) -> int {
    row + nrow * col
}

/// Every entry of an `nrow`-by-`ncol` matrix has its own position, and all
/// positions lie inside `0 .. nrow * ncol`.
pub proof fn lemma_column_major_positions(nrow: nat, ncol: nat, r1: int, c1: int, r2: int, c2: int)
    requires
        0 <= r1 < nrow,
        0 <= c1 < ncol,
        0 <= r2 < nrow,
        0 <= c2 < ncol,
    ensures
        0 <= column_major_position(nrow, r1, c1) < nrow * ncol,
        (r1 != r2 || c1 != c2) ==> column_major_position(nrow, r1, c1) != column_major_position(
            nrow,
            r2,
            c2,
        ),
{
    assert(0 <= r1 + nrow * c1 < nrow * ncol) by (nonlinear_arith)
        requires
            0 <= r1 < nrow,
            0 <= c1 < ncol,
    ;
    assert((r1 != r2 || c1 != c2) ==> r1 + nrow * c1 != r2 + nrow * c2) by (nonlinear_arith)
        requires
            0 <= r1 < nrow,
            0 <= r2 < nrow,
            0 <= c1,
            0 <= c2,
    ;
}

/// A dense matrix stored column by column.
pub struct Matrix<T> {
    nrow: usize,
    ncol: usize,
    data: Vec<T>,
}

impl<T> Matrix<T> {
    #[verifier::type_invariant]
    spec fn well_formed(self) -> bool {
        self.data@.len() == self.nrow * self.ncol
    }

    /// Number of rows.
    pub closed spec fn rows(self) -> nat {
        self.nrow as nat
    }

    /// Number of columns.
    pub closed spec fn cols(self) -> nat {
        self.ncol as nat
    }

    /// The backing values, column after column.
    pub closed spec fn column_major(self) -> Seq<T> {
        self.data@
    }

    /// The entry in row `row` and column `col`.
    pub open spec fn at(self, row: int, col: int) -> T {
        self.column_major()[column_major_position(self.rows(), row, col)]
    }

    /// A matrix of the given shape with every entry equal to `zero`.
    pub fn zeros(nrow: usize, ncol: usize, zero: T) -> (matrix: Self) where T: Copy
        requires
            nrow * ncol <= usize::MAX,
        ensures
            matrix.rows() == nrow,
            matrix.cols() == ncol,
            forall|r: int, c: int| 0 <= r < nrow && 0 <= c < ncol ==> matrix.at(r, c) == zero,
    {
        let len = nrow * ncol;
        let mut data: Vec<T> = Vec::with_capacity(len);
        let mut i: usize = 0;
        while i < len
            invariant
                i <= len,
                data@.len() == i,
                forall|m: int| 0 <= m < i ==> data@[m] == zero,
            decreases len - i,
        {
            data.push(zero);
            i += 1;
        }
        let matrix = Matrix { nrow, ncol, data };
        assert forall|r: int, c: int| 0 <= r < nrow && 0 <= c < ncol implies matrix.at(r, c)
            == zero by {
            lemma_column_major_positions(nrow as nat, ncol as nat, r, c, r, c);
        }
        matrix
    }

    /// A matrix whose backing values are `data`, read column by column.
    pub fn from_col_major(data: &[T], nrow: usize, ncol: usize) -> (matrix: Self) where T: Copy
        requires
            data@.len() == nrow * ncol,
        ensures
            matrix.rows() == nrow,
            matrix.cols() == ncol,
            matrix.column_major() == data@,
    {
        let mut values: Vec<T> = Vec::with_capacity(data.len());
        let mut i: usize = 0;
        while i < data.len()
            invariant
                i <= data@.len(),
                values@ == data@.subrange(0, i as int),
            decreases data@.len() - i,
        {
            values.push(data[i]);
            i += 1;
        }
        assert(values@ == data@);
        Matrix { nrow, ncol, data: values }
    }

    /// Number of rows.
    pub fn nrow(&self) -> (n: usize)
        ensures
            n == self.rows(),
            self.rows() * self.cols() <= usize::MAX,
    {
        let _len = self.data.len();
        proof {
            use_type_invariant(self);
        }
        self.nrow
    }

    /// Number of columns.
    pub fn ncol(&self) -> (n: usize)
        ensures
            n == self.cols(),
            self.rows() * self.cols() <= usize::MAX,
    {
        let _len = self.data.len();
        proof {
            use_type_invariant(self);
        }
        self.ncol
    }

    /// The backing values, column after column.
    pub fn as_slice(&self) -> (values: &[T])
        ensures
            values@ == self.column_major(),
            values@.len() == self.rows() * self.cols(),
    {
        proof {
            use_type_invariant(self);
        }
        self.data.as_slice()
    }

    /// A copy of the matrix.
    pub fn copied(&self) -> (copy: Self) where T: Copy
        ensures
            copy.rows() == self.rows(),
            copy.cols() == self.cols(),
            copy.column_major() == self.column_major(),
    {
        let nrow = self.nrow();
        let ncol = self.ncol();
        Matrix::from_col_major(self.as_slice(), nrow, ncol)
    }

    /// Position of entry `(row, col)` in the backing vector.
    fn index(&self, row: usize, col: usize) -> (position: usize)
        requires
            row < self.rows(),
            col < self.cols(),
        ensures
            position == column_major_position(self.rows(), row as int, col as int),
            position < self.column_major().len(),
    {
        let _len = self.data.len();
        proof {
            use_type_invariant(self);
            lemma_column_major_positions(
                self.nrow as nat,
                self.ncol as nat,
                row as int,
                col as int,
                row as int,
                col as int,
            );
            assert(self.nrow * col <= self.nrow * self.ncol) by (nonlinear_arith)
                requires col < self.ncol;
        }
        row + self.nrow * col
    }

    /// The entry in row `row` and column `col`.
    pub fn get(&self, row: usize, col: usize) -> (value: T) where T: Copy
        requires
            row < self.rows(),
            col < self.cols(),
        ensures
            value == self.at(row as int, col as int),
            value == self.column_major()[row + self.rows() * col],
    {
        let position = self.index(row, col);
        self.data[position]
    }

    /// Overwrites the entry in row `row` and column `col`; every other entry
    /// and the shape stay as they were.
    pub fn set(&mut self, row: usize, col: usize, value: T)
        requires
            row < old(self).rows(),
            col < old(self).cols(),
        ensures
            final(self).rows() == old(self).rows(),
            final(self).cols() == old(self).cols(),
            final(self).at(row as int, col as int) == value,
            forall|r: int, c: int|
                0 <= r < old(self).rows() && 0 <= c < old(self).cols() && (r != row || c != col)
                    ==> #[trigger] final(self).at(r, c) == old(self).at(r, c),
    {
        proof {
            use_type_invariant(&*self);
        }
        let position = self.index(row, col);
        let mut taken = Matrix { nrow: 0, ncol: 0, data: Vec::new() };
        std::mem::swap(self, &mut taken);
        let Matrix { nrow, ncol, mut data } = taken;
        data.set(position, value);
        *self = Matrix { nrow, ncol, data };
        proof {
            assert forall|r: int, c: int|
                0 <= r < old(self).rows() && 0 <= c < old(self).cols() && (r != row || c != col)
                    implies #[trigger] self.at(r, c) == old(self).at(r, c) by {
                lemma_column_major_positions(
                    self.nrow as nat,
                    self.ncol as nat,
                    r,
                    c,
                    row as int,
                    col as int,
                );
            }
        }
    }

    /// A copy of row `row`, one value per column.
    pub fn row(&self, row: usize) -> (values: Vec<T>) where T: Copy
        requires
            row < self.rows(),
        ensures
            values@.len() == self.cols(),
            forall|c: int| 0 <= c < self.cols() ==> values@[c] == self.at(row as int, c),
    {
        let mut values: Vec<T> = Vec::with_capacity(self.ncol);
        let mut col: usize = 0;
        while col < self.ncol
            invariant
                row < self.rows(),
                col <= self.cols(),
                values@.len() == col,
                forall|c: int| 0 <= c < col ==> values@[c] == self.at(row as int, c),
            decreases self.cols() - col,
        {
            values.push(self.get(row, col));
            col += 1;
        }
        values
    }

    /// Overwrites row `row` with `values`; every other row stays as it was.
    pub fn set_row(&mut self, row: usize, values: &[T]) where T: Copy
        requires
            row < old(self).rows(),
            values@.len() == old(self).cols(),
        ensures
            final(self).rows() == old(self).rows(),
            final(self).cols() == old(self).cols(),
            forall|c: int| 0 <= c < old(self).cols() ==> final(self).at(row as int, c) == values@[c],
            forall|r: int, c: int|
                0 <= r < old(self).rows() && 0 <= c < old(self).cols() && r != row
                    ==> #[trigger] final(self).at(r, c) == old(self).at(r, c),
    {
        let ghost initial = *self;
        let mut col: usize = 0;
        while col < values.len()
            invariant
                row < self.rows(),
                values@.len() == self.cols(),
                self.rows() == initial.rows(),
                self.cols() == initial.cols(),
                col <= values@.len(),
                forall|c: int| 0 <= c < col ==> self.at(row as int, c) == values@[c],
                forall|r: int, c: int|
                    0 <= r < initial.rows() && 0 <= c < initial.cols() && (r != row || c >= col)
                        ==> #[trigger] self.at(r, c) == initial.at(r, c),
            decreases values@.len() - col,
        {
            self.set(row, col, values[col]);
            col += 1;
        }
    }
}

/// Position of entry `(first, second, third)` of an `n`-cube.
pub open spec fn cube_position(n: nat, first: int, second: int, third: int) -> int {
    column_major_position(n, first, column_major_position(n, second, third))
}

/// Every entry of an `n`-cube has its own position inside `0 .. n * n * n`.
pub proof fn lemma_cube_positions(
    n: nat,
    i1: int,
    j1: int,
    k1: int,
    i2: int,
    j2: int,
    k2: int,
)
    requires
        0 <= i1 < n,
        0 <= j1 < n,
        0 <= k1 < n,
        0 <= i2 < n,
        0 <= j2 < n,
        0 <= k2 < n,
    ensures
        0 <= cube_position(n, i1, j1, k1) < n * n * n,
        (i1 != i2 || j1 != j2 || k1 != k2) ==> cube_position(n, i1, j1, k1) != cube_position(
            n,
            i2,
            j2,
            k2,
        ),
{
    lemma_column_major_positions(n, n, j1, k1, j2, k2);
    lemma_column_major_positions(n, n, j2, k2, j1, k1);
    let inner1 = column_major_position(n, j1, k1);
    let inner2 = column_major_position(n, j2, k2);
    lemma_column_major_positions(n, n * n, i1, inner1, i2, inner2);
    assert(n * (n * n) == n * n * n) by (nonlinear_arith);
}

/// A dense `n`-by-`n`-by-`n` array, first index fastest.
pub struct Cube<T> {
    n: usize,
    data: Vec<T>,
}

impl<T> Cube<T> {
    #[verifier::type_invariant]
    spec fn well_formed(self) -> bool {
        self.data@.len() == self.n * self.n * self.n
    }

    /// The extent along each of the three axes.
    pub closed spec fn size(self) -> nat {
        self.n as nat
    }

    /// The backing values, first index fastest.
    pub closed spec fn values(self) -> Seq<T> {
        self.data@
    }

    /// The entry at `(first, second, third)`.
    pub open spec fn at(self, first: int, second: int, third: int) -> T {
        self.values()[cube_position(self.size(), first, second, third)]
    }

    /// An `n`-cube with every entry equal to `zero`.
    pub fn zeros(n: usize, zero: T) -> (cube: Self) where T: Copy
        requires
            n * n * n <= usize::MAX,
        ensures
            cube.size() == n,
            forall|i: int, j: int, k: int|
                0 <= i < n && 0 <= j < n && 0 <= k < n ==> cube.at(i, j, k) == zero,
    {
        proof {
            assert(n * n <= n * n * n || n == 0) by (nonlinear_arith);
        }
        let len = n * n * n;
        let mut data: Vec<T> = Vec::with_capacity(len);
        let mut m: usize = 0;
        while m < len
            invariant
                m <= len,
                data@.len() == m,
                forall|q: int| 0 <= q < m ==> data@[q] == zero,
            decreases len - m,
        {
            data.push(zero);
            m += 1;
        }
        let cube = Cube { n, data };
        assert forall|i: int, j: int, k: int|
            0 <= i < n && 0 <= j < n && 0 <= k < n implies cube.at(i, j, k) == zero by {
            lemma_cube_positions(n as nat, i, j, k, i, j, k);
        }
        cube
    }

    /// The extent along each axis.
    pub fn size_of(&self) -> (n: usize)
        ensures
            n == self.size(),
    {
        self.n
    }

    /// Position of entry `(first, second, third)` in the backing vector.
    fn index(&self, first: usize, second: usize, third: usize) -> (position: usize)
        requires
            first < self.size(),
            second < self.size(),
            third < self.size(),
        ensures
            position == cube_position(self.size(), first as int, second as int, third as int),
            position < self.values().len(),
    {
        let _len = self.data.len();
        proof {
            use_type_invariant(self);
            lemma_cube_positions(
                self.n as nat,
                first as int,
                second as int,
                third as int,
                first as int,
                second as int,
                third as int,
            );
            let n = self.n;
            lemma_column_major_positions(
                n as nat,
                n as nat,
                second as int,
                third as int,
                second as int,
                third as int,
            );
            assert(n * third <= n * n) by (nonlinear_arith)
                requires third < n;
            assert(n * n <= n * n * n) by (nonlinear_arith)
                requires n >= 1;
            assert(n * (second + n * third) <= n * (n * n)) by (nonlinear_arith)
                requires second + n * third < n * n;
            assert(n * (n * n) == n * n * n) by (nonlinear_arith);
        }
        first + self.n * (second + self.n * third)
    }

    /// The entry at `(first, second, third)`.
    pub fn get(&self, first: usize, second: usize, third: usize) -> (value: T) where T: Copy
        requires
            first < self.size(),
            second < self.size(),
            third < self.size(),
        ensures
            value == self.at(first as int, second as int, third as int),
            value == self.values()[first + self.size() * (second + self.size() * third)],
    {
        let position = self.index(first, second, third);
        self.data[position]
    }

    /// Overwrites the entry at `(first, second, third)`; every other entry
    /// stays as it was.
    pub fn set(&mut self, first: usize, second: usize, third: usize, value: T)
        requires
            first < old(self).size(),
            second < old(self).size(),
            third < old(self).size(),
        ensures
            final(self).size() == old(self).size(),
            final(self).at(first as int, second as int, third as int) == value,
            forall|i: int, j: int, k: int|
                0 <= i < old(self).size() && 0 <= j < old(self).size()
                    && 0 <= k < old(self).size() && (i != first || j != second || k != third)
                    ==> #[trigger] final(self).at(i, j, k) == old(self).at(i, j, k),
    {
        proof {
            use_type_invariant(&*self);
        }
        let position = self.index(first, second, third);
        let mut taken = Cube { n: 0, data: Vec::new() };
        std::mem::swap(self, &mut taken);
        let Cube { n, mut data } = taken;
        data.set(position, value);
        *self = Cube { n, data };
        proof {
            assert forall|i: int, j: int, k: int|
                0 <= i < n && 0 <= j < n && 0 <= k < n && (i != first || j != second
                    || k != third) implies #[trigger] self.at(i, j, k) == old(self).at(i, j, k) by {
                lemma_cube_positions(
                    n as nat,
                    i,
                    j,
                    k,
                    first as int,
                    second as int,
                    third as int,
                );
            }
        }
    }
}

} // verus!
