//! The table of numbers: a two-dimensional array of the `ndarray` crate.
//!
//! Verus does not look inside the array. What it holds goes by two names,
//! [`matrix_rows`] and [`matrix_width`], and the functions of this file say
//! over these names what the methods of `ndarray` do. Nothing here is proved.

use vstd::prelude::*;
use ndarray::{Array2, Axis, ShapeError, Slice};

verus! {

/// A rectangular table of fixed-point numbers, held in an
/// `ndarray::Array2<i64>`.
#[verifier::external_body]
#[derive(Debug)]
pub struct Matrix {
    inner: Array2<i64>,
}

#[verifier::external_type_specification]
#[verifier::external_body]
pub struct ExShapeError(ShapeError);

/// The rows of the table, from first to last, each from its first column to
/// its last.
pub uninterp spec fn matrix_rows(m: Matrix) -> Seq<Seq<i64>>;

/// The number of columns of the table.
pub uninterp spec fn matrix_width(m: Matrix) -> nat;

/// The lengths `nrows` and `ncols` describe a table of `len` cells that
/// `ndarray` accepts: they multiply to `len`, and the product of those of
/// them that are not 0 does not exceed `isize::MAX`.
pub open spec fn fits_shape(nrows: nat, ncols: nat, len: nat) -> bool {
    &&& nrows * ncols == len
    &&& (if nrows == 0 {
        1nat
    } else {
        nrows
    }) * (if ncols == 0 {
        1nat
    } else {
        ncols
    }) <= isize::MAX
}

impl Clone for Matrix {
    /// `Clone::clone` of the array: a table with the same cells.
    #[verifier::external_body]
    fn clone(&self) -> (r: Self)
        ensures
            matrix_rows(r) == matrix_rows(*self),
            matrix_width(r) == matrix_width(*self),
    {
        Matrix { inner: self.inner.clone() }
    }
}

/// `Array2::from_shape_vec` with the shape `(nrows, ncols)`, which lays the
/// vector out row after row. It fails exactly when the shape does not fit the
/// vector (see [`fits_shape`]); else cell `j` of row `i` is element
/// `i * ncols + j` of the vector.
#[verifier::external_body]
pub(crate) fn matrix_from_flat(nrows: usize, ncols: usize, flat: Vec<i64>) -> (r: Result<Matrix, ShapeError>)
    ensures
        r is Ok <==> fits_shape(nrows as nat, ncols as nat, flat@.len()),
        r matches Ok(m) ==> {
            &&& matrix_width(m) == ncols
            &&& matrix_rows(m).len() == nrows
            &&& forall|i: int| 0 <= i < nrows ==> (#[trigger] matrix_rows(m)[i]).len() == ncols
            &&& forall|i: int, j: int|
                0 <= i < nrows && 0 <= j < ncols ==> #[trigger] matrix_rows(m)[i][j] == flat@[i * ncols + j]
        },
{
    match Array2::from_shape_vec((nrows, ncols), flat) {
        Ok(inner) => Ok(Matrix { inner }),
        Err(e) => Err(e),
    }
}

/// `ArrayBase::nrows`: the number of rows.
#[verifier::external_body]
pub(crate) fn matrix_nrows(m: &Matrix) -> (n: usize)
    ensures
        n == matrix_rows(*m).len(),
{
    m.inner.nrows()
}

/// `ArrayBase::ncols`: the number of columns, which is the length of every
/// row.
#[verifier::external_body]
pub(crate) fn matrix_ncols(m: &Matrix) -> (n: usize)
    ensures
        n == matrix_width(*m),
        forall|i: int| 0 <= i < matrix_rows(*m).len() ==> (#[trigger] matrix_rows(*m)[i]).len() == n,
{
    m.inner.ncols()
}

/// Indexing the array with `[[i, j]]`: the cell in row `i` and column `j`.
/// The index panics out of bounds, which the precondition leaves out.
#[verifier::external_body]
pub(crate) fn matrix_cell(m: &Matrix, i: usize, j: usize) -> (v: i64)
    requires
        i < matrix_rows(*m).len(),
        j < matrix_width(*m),
    ensures
        v == matrix_rows(*m)[i as int][j as int],
{
    m.inner[[i, j]]
}

/// `ArrayBase::slice_axis` along the second axis with the range from 0 to
/// `cols`, made into an array of its own by `to_owned`: the first `cols`
/// columns of every row. The slice panics when the range exceeds the axis,
/// which the precondition leaves out.
#[verifier::external_body]
pub(crate) fn matrix_columns(m: &Matrix, cols: usize) -> (r: Matrix)
    requires
        cols <= matrix_width(*m),
    ensures
        matrix_width(r) == cols,
        matrix_rows(r).len() == matrix_rows(*m).len(),
        forall|i: int|
            0 <= i < matrix_rows(*m).len() ==> #[trigger] matrix_rows(r)[i] == matrix_rows(*m)[i].take(
                cols as int,
            ),
{
    Matrix { inner: m.inner.slice_axis(Axis(1), Slice::from(0..cols)).to_owned() }
}

} // verus!
