//! A matrix of booleans held in nalgebra's `DMatrix`.
//!
//! Verus does not take a declaration of `DMatrix` itself (its storage type
//! carries a trait bound of nalgebra), so the matrix stands in a field that
//! Verus does not look into, and the calls the bitmaps make go through the
//! wrappers below, stated over `matrix_cells` and `matrix_shape`.
use nalgebra::DMatrix;
use vstd::prelude::*;

verus! {

/// A dynamically sized matrix of booleans.
#[verifier::external_body]
pub struct BoolMatrix {
    inner: DMatrix<bool>,
}

/// The entries of a matrix, column by column.
pub uninterp spec fn matrix_cells(m: BoolMatrix) -> Seq<bool>;

/// The number of rows and of columns of a matrix.
pub uninterp spec fn matrix_shape(m: BoolMatrix) -> (nat, nat);

/// The entry at row `r` and column `c` of a matrix stored column by column.
pub open spec fn matrix_at(m: BoolMatrix, r: int, c: int) -> bool {
    matrix_cells(m)[c * matrix_shape(m).0 + r]
}

/// The entry at row `r` and column `c`, and `false` outside the matrix.
pub open spec fn image_at(m: BoolMatrix, r: int, c: int) -> bool {
    if 0 <= r < matrix_shape(m).0 && 0 <= c < matrix_shape(m).1 {
        matrix_at(m, r, c)
    } else {
        false
    }
}

/// Relies on nalgebra's `DMatrix::from_iterator`: a `rows` by `cols` matrix
/// filled column by column from the values, which must number exactly
/// `rows * cols` (it panics otherwise).
#[verifier::external_body]
fn matrix_from_columns(rows: usize, cols: usize, values: Vec<bool>) -> (m: BoolMatrix)
    requires
        values@.len() == rows * cols,
    ensures
        matrix_shape(m).0 == rows,
        matrix_shape(m).1 == cols,
        matrix_cells(m) == values@,
{
    BoolMatrix { inner: DMatrix::from_iterator(rows, cols, values) }
}

/// Relies on nalgebra's `Matrix::insert_rows`: `n` rows of `val` inserted
/// before row `i`, which must not pass the end (it panics otherwise); the
/// rows from `i` on move down by `n`. The new row count must fit in a
/// `usize`.
#[verifier::external_body]
fn matrix_insert_rows(m: BoolMatrix, i: usize, n: usize, val: bool) -> (r: BoolMatrix)
    requires
        i <= matrix_shape(m).0,
        matrix_shape(m).0 + n <= usize::MAX,
        (matrix_shape(m).0 + n) * matrix_shape(m).1 <= isize::MAX,
    ensures
        matrix_shape(r).0 == matrix_shape(m).0 + n,
        matrix_shape(r).1 == matrix_shape(m).1,
        matrix_cells(r).len() == matrix_shape(r).0 * matrix_shape(r).1,
        forall|row: int, col: int|
            0 <= row < matrix_shape(r).0 && 0 <= col < matrix_shape(r).1 ==> #[trigger] matrix_at(
                r,
                row,
                col,
            ) == if row < i {
                matrix_at(m, row, col)
            } else if row < i + n {
                val
            } else {
                matrix_at(m, row - n, col)
            },
{
    BoolMatrix { inner: m.inner.insert_rows(i, n, val) }
}

/// Relies on nalgebra's `Matrix::insert_columns`: `n` columns of `val`
/// inserted before column `i`, which must not pass the end (it panics
/// otherwise); the columns from `i` on move right by `n`. The new column
/// count must fit in a `usize`.
#[verifier::external_body]
fn matrix_insert_columns(m: BoolMatrix, i: usize, n: usize, val: bool) -> (r: BoolMatrix)
    requires
        i <= matrix_shape(m).1,
        matrix_shape(m).1 + n <= usize::MAX,
        matrix_shape(m).0 * (matrix_shape(m).1 + n) <= isize::MAX,
    ensures
        matrix_shape(r).0 == matrix_shape(m).0,
        matrix_shape(r).1 == matrix_shape(m).1 + n,
        matrix_cells(r).len() == matrix_shape(r).0 * matrix_shape(r).1,
        forall|row: int, col: int|
            0 <= row < matrix_shape(r).0 && 0 <= col < matrix_shape(r).1 ==> #[trigger] matrix_at(
                r,
                row,
                col,
            ) == if col < i {
                matrix_at(m, row, col)
            } else if col < i + n {
                val
            } else {
                matrix_at(m, row, col - n)
            },
{
    BoolMatrix { inner: m.inner.insert_columns(i, n, val) }
}

/// Relies on nalgebra's `Matrix::get` with a `(row, column)` index: the
/// entry, or `None` outside the matrix.
#[verifier::external_body]
fn matrix_get(m: &BoolMatrix, r: usize, c: usize) -> (v: Option<bool>)
    ensures
        r < matrix_shape(*m).0 && c < matrix_shape(*m).1 ==> v == Some(
            matrix_at(*m, r as int, c as int),
        ),
        !(r < matrix_shape(*m).0 && c < matrix_shape(*m).1) ==> v is None,
{
    m.inner.get((r, c)).copied()
}

/// Relies on nalgebra's `Matrix::nrows`: the number of rows.
#[verifier::external_body]
fn matrix_rows(m: &BoolMatrix) -> (r: usize)
    ensures
        r == matrix_shape(*m).0,
{
    m.inner.nrows()
}

/// Relies on nalgebra's `Matrix::ncols`: the number of columns.
#[verifier::external_body]
fn matrix_cols(m: &BoolMatrix) -> (c: usize)
    ensures
        c == matrix_shape(*m).1,
{
    m.inner.ncols()
}

impl BoolMatrix {
    /// A `rows` by `cols` matrix filled column by column from `values`;
    /// `None` unless there are exactly `rows * cols` values.
    pub fn from_columns(rows: usize, cols: usize, values: Vec<bool>) -> (m: Option<BoolMatrix>)
        ensures
            values@.len() == rows * cols <==> m is Some,
            m matches Some(m) ==> matrix_shape(m) == (rows as nat, cols as nat) && matrix_cells(m)
                == values@,
    {
        match rows.checked_mul(cols) {
            Some(n) => {
                if n == values.len() {
                    Some(matrix_from_columns(rows, cols, values))
                } else {
                    None
                }
            },
            None => {
                // no vector holds more than usize::MAX values
                let _len = values.len();
                None
            },
        }
    }

    /// The number of rows.
    pub fn nrows(&self) -> (r: usize)
        ensures
            r == matrix_shape(*self).0,
    {
        matrix_rows(self)
    }

    /// The number of columns.
    pub fn ncols(&self) -> (c: usize)
        ensures
            c == matrix_shape(*self).1,
    {
        matrix_cols(self)
    }

    /// The entry at row `r` and column `c`, or `false` outside the matrix.
    pub fn at_or_false(&self, r: usize, c: usize) -> (b: bool)
        ensures
            b == image_at(*self, r as int, c as int),
    {
        match matrix_get(self, r, c) {
            Some(v) => v,
            None => false,
        }
    }

    /// The matrix with a border of `true` entries two wide on every side.
    pub fn bordered(self) -> (r: BoolMatrix)
        requires
            (matrix_shape(self).0 + 4) * (matrix_shape(self).1 + 4) <= isize::MAX,
        ensures
            matrix_shape(r) == (matrix_shape(self).0 + 4, matrix_shape(self).1 + 4),
            forall|row: int, col: int|
                0 <= row < matrix_shape(r).0 && 0 <= col < matrix_shape(r).1 ==> #[trigger] matrix_at(
                    r,
                    row,
                    col,
                ) == if 2 <= row < matrix_shape(self).0 + 2 && 2 <= col < matrix_shape(self).1
                    + 2 {
                    matrix_at(self, row - 2, col - 2)
                } else {
                    true
                },
    {
        let ghost (h, w) = (matrix_shape(self).0 as int, matrix_shape(self).1 as int);
        let rows = matrix_rows(&self);
        let cols = matrix_cols(&self);
        proof {
            assert((h + 2) * w <= (h + 4) * (w + 4) && (h + 2) * (w + 2) <= (h + 4) * (w + 4) && (h
                + 4) * (w + 2) <= (h + 4) * (w + 4) && h + 4 <= (h + 4) * (w + 4) && w + 4 <= (h + 4)
                * (w + 4)) by (nonlinear_arith)
                requires
                    h >= 0,
                    w >= 0,
            ;
        }
        // two rows of border at the bottom, two columns on the right, then
        // the same at the top and on the left
        let image = matrix_insert_rows(self, rows, 2, true);
        let image = matrix_insert_columns(image, cols, 2, true);
        let image = matrix_insert_rows(image, 0, 2, true);
        let image = matrix_insert_columns(image, 0, 2, true);
        image
    }
}

} // verus!
