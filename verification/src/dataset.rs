//! A data set: a table of numbers with optional column names, and k-means
//! clustering on its first three columns.

use vstd::prelude::*;
use crate::assign::assignment;
use crate::cluster::{cluster, is_outcome, is_seeding, InsufficientDataError};
use crate::geometry::{comparable, dist_sq, floor_sqrt, is_floor_sqrt, squared_distance, Point};
use crate::matrix::{
    fits_shape, matrix_cell, matrix_columns, matrix_from_flat, matrix_ncols, matrix_nrows, matrix_rows,
    matrix_width, Matrix,
};

verus! {

/// Why a table could not be built.
#[derive(Clone, Copy, Debug, PartialEq, Eq, Structural)]
pub enum LoadError {
    /// The text is not well-formed tab-separated text in UTF-8 with rows of
    /// equal length.
    Malformed,
    /// There is no data row.
    NoData,
    /// A row has another number of fields than the first.
    Ragged,
    /// The table has more cells than a table can hold.
    TooLarge,
}

/// A table of numbers, one row per record, with the names of its columns
/// where they are known.
#[derive(Debug, Clone)]
pub struct DataSet {
    /// The numbers, one row per record.
    pub data: Matrix,
    /// The names of the columns.
    pub headers: Option<Vec<String>>,
}

/// The rows, each as a sequence of its numbers.
pub open spec fn table(rows: Seq<Vec<i64>>) -> Seq<Seq<i64>> {
    Seq::new(rows.len(), |i: int| rows[i]@)
}

/// Every row is as long as the first.
pub open spec fn is_rectangular(rows: Seq<Seq<i64>>) -> bool {
    forall|i: int| 0 <= i < rows.len() ==> (#[trigger] rows[i]).len() == rows[0].len()
}

/// The points that the first three columns of the rows give.
pub open spec fn points_of(rows: Seq<Seq<i64>>) -> Seq<Point> {
    Seq::new(rows.len(), |i: int| [rows[i][0], rows[i][1], rows[i][2]])
}

/// `r` is what building a table from `rows` gives: the table with these
/// rows, or the reason why there is none.
pub open spec fn is_table_of(rows: Seq<Seq<i64>>, r: Result<DataSet, LoadError>) -> bool {
    match r {
        Ok(ds) => {
            &&& rows.len() > 0
            &&& is_rectangular(rows)
            &&& fits_shape(rows.len(), rows[0].len(), rows.len() * rows[0].len())
            &&& ds.rows() == rows
            &&& ds.width() == rows[0].len()
        },
        Err(LoadError::NoData) => rows.len() == 0,
        Err(LoadError::Ragged) => rows.len() > 0 && !is_rectangular(rows),
        Err(LoadError::TooLarge) => {
            &&& rows.len() > 0
            &&& is_rectangular(rows)
            &&& !fits_shape(rows.len(), rows[0].len(), rows.len() * rows[0].len())
        },
        Err(LoadError::Malformed) => false,
    }
}

/// Places in a table laid out row after row do not run into the next row.
proof fn lemma_cell_place(i: int, j: int, rows: int, cols: int)
    requires
        0 <= i < rows,
        0 <= j < cols,
    ensures
        0 <= i * cols + j < rows * cols,
{
    assert(0 <= i * cols && (i + 1) * cols <= rows * cols && (i + 1) * cols == i * cols + cols)
        by (nonlinear_arith)
        requires
            0 <= i < rows,
            0 <= cols,
    ;
}

impl DataSet {
    /// The rows of the table.
    pub open spec fn rows(&self) -> Seq<Seq<i64>> {
        matrix_rows(self.data)
    }

    /// The number of columns of the table.
    pub open spec fn width(&self) -> nat {
        matrix_width(self.data)
    }

    /// The points that the first three columns give.
    pub open spec fn points(&self) -> Seq<Point> {
        points_of(self.rows())
    }

    /// Builds a data set from its rows.
    ///
    /// Fails when there is no row, when a row has another length than the
    /// first, or when the table is too large.
    pub fn from_rows(rows: &Vec<Vec<i64>>, headers: Option<Vec<String>>) -> (r: Result<DataSet, LoadError>)
        ensures
            is_table_of(table(rows@), r),
            r matches Ok(ds) ==> ds.headers == headers,
    {
        let nrows: usize = rows.len();
        if nrows == 0 {
            return Err(LoadError::NoData);
        }
        let ncols: usize = rows[0].len();
        let mut flat: Vec<i64> = Vec::new();
        let mut i: usize = 0;
        while i < nrows
            invariant
                i <= nrows,
                nrows == rows.len(),
                nrows > 0,
                ncols == rows[0].len(),
                flat.len() == i * ncols,
                forall|r: int| 0 <= r < i ==> (#[trigger] rows[r]).len() == ncols,
                forall|r: int, c: int|
                    0 <= r < i && 0 <= c < ncols ==> flat[r * ncols + c] == #[trigger] rows[r][c],
            decreases nrows - i,
        {
            let row: &Vec<i64> = &rows[i];
            if row.len() != ncols {
                proof {
                    assert(table(rows@)[i as int].len() != table(rows@)[0].len());
                }
                return Err(LoadError::Ragged);
            }
            let mut j: usize = 0;
            while j < ncols
                invariant
                    j <= ncols,
                    i < nrows,
                    nrows == rows.len(),
                    row == &rows[i as int],
                    row.len() == ncols,
                    flat.len() == i * ncols + j,
                    forall|r: int, c: int|
                        0 <= r < i && 0 <= c < ncols ==> flat[r * ncols + c] == #[trigger] rows[r][c],
                    forall|c: int| 0 <= c < j ==> flat[i * ncols + c] == #[trigger] row[c],
                decreases ncols - j,
            {
                let ghost before = flat@;
                flat.push(row[j]);
                proof {
                    assert forall|r: int, c: int| 0 <= r < i && 0 <= c < ncols implies flat@[r * ncols
                        + c] == #[trigger] rows[r][c] by {
                        lemma_cell_place(r, c, i as int, ncols as int);
                        assert(before[r * ncols + c] == rows[r][c]);
                    }
                }
                j += 1;
            }
            assert((i + 1) * ncols == i * ncols + ncols) by (nonlinear_arith);
            i += 1;
        }
        proof {
            assert(is_rectangular(table(rows@)));
        }
        match matrix_from_flat(nrows, ncols, flat) {
            Ok(data) => {
                proof {
                    assert forall|r: int| 0 <= r < nrows implies #[trigger] matrix_rows(data)[r] == table(
                        rows@,
                    )[r] by {
                        assert(matrix_rows(data)[r].len() == ncols);
                        assert(rows[r].len() == ncols);
                        assert forall|c: int| 0 <= c < ncols implies matrix_rows(data)[r][c] == rows[r][c] by {}
                        assert(matrix_rows(data)[r] =~= rows[r]@);
                    }
                    assert(matrix_rows(data) =~= table(rows@));
                }
                Ok(DataSet { data, headers })
            },
            Err(_) => Err(LoadError::TooLarge),
        }
    }

    /// The number of rows.
    pub fn nrows(&self) -> (n: usize)
        ensures
            n == self.rows().len(),
    {
        matrix_nrows(&self.data)
    }

    /// The number of columns, which is the length of every row.
    pub fn ncols(&self) -> (n: usize)
        ensures
            n == self.width(),
            is_rectangular(self.rows()),
            self.rows().len() > 0 ==> self.rows()[0].len() == n,
    {
        matrix_ncols(&self.data)
    }

    /// The number in row `i` and column `j`, or `None` where the table has
    /// no such cell.
    pub fn get(&self, i: usize, j: usize) -> (v: Option<i64>)
        ensures
            match v {
                Some(x) => i < self.rows().len() && j < self.width() && x == self.rows()[i as int][j as int],
                None => i >= self.rows().len() || j >= self.width(),
            },
    {
        if i < matrix_nrows(&self.data) && j < matrix_ncols(&self.data) {
            Some(matrix_cell(&self.data, i, j))
        } else {
            None
        }
    }

    /// The first `ncols` columns of the table, or all of them where it has
    /// fewer.
    pub fn numeric_view(&self, ncols: usize) -> (view: Matrix)
        ensures
            matrix_width(view) == if ncols <= self.width() {
                ncols as nat
            } else {
                self.width()
            },
            matrix_rows(view).len() == self.rows().len(),
            forall|i: int|
                0 <= i < self.rows().len() ==> #[trigger] matrix_rows(view)[i] == self.rows()[i].take(
                    matrix_width(view) as int,
                ),
    {
        let have: usize = matrix_ncols(&self.data);
        let cols: usize = if ncols <= have {
            ncols
        } else {
            have
        };
        matrix_columns(&self.data, cols)
    }

    /// The Euclidean distance between two points, rounded down to a whole
    /// number of units, or `None` when either has a coordinate that is not a
    /// number.
    pub fn e_dist3(a: &Point, b: &Point) -> (r: Option<u64>)
        ensures
            match r {
                Some(d) => comparable(*a, *b) && is_floor_sqrt(dist_sq(*a, *b), d as int),
                None => !comparable(*a, *b),
            },
    {
        match squared_distance(a, b) {
            Some(sq) => Some(floor_sqrt(sq)),
            None => None,
        }
    }

    /// Clusters the rows by their first three columns into `k` clusters and
    /// returns the label of every row. See [`cluster`].
    ///
    /// The table must have three columns, unless the call fails anyway.
    pub fn kmeans3d(&self, k: usize, max_iter: usize) -> (r: Result<Vec<usize>, InsufficientDataError>)
        requires
            k == 0 || self.rows().len() < k || self.width() >= 3,
        ensures
            match r {
                Ok(labels) => {
                    &&& 1 <= k <= self.rows().len()
                    &&& labels.len() == self.rows().len()
                    &&& forall|i: int| 0 <= i < labels.len() ==> #[trigger] labels[i] < k
                    &&& is_outcome(self.points(), k as nat, max_iter as nat, labels@)
                    &&& max_iter == 0 ==> exists|cs: Seq<Point>|
                        #[trigger] is_seeding(self.points(), k as nat, cs) && labels@ == assignment(
                            self.points(),
                            cs,
                        )
                },
                Err(e) => {
                    &&& k == 0 || self.rows().len() < k
                    &&& e == (InsufficientDataError { points: self.rows().len() as usize, clusters: k })
                },
            },
    {
        let data: Matrix = self.numeric_view(3);
        let nrows: usize = matrix_nrows(&data);
        if k == 0 || nrows < k {
            return Err(InsufficientDataError { points: nrows, clusters: k });
        }
        let width: usize = matrix_ncols(&self.data);
        let mut points: Vec<Point> = Vec::new();
        let mut i: usize = 0;
        while i < nrows
            invariant
                i <= nrows,
                forall|r: int| 0 <= r < self.rows().len() ==> (#[trigger] self.rows()[r]).len() == width,
                width >= 3,
                nrows == matrix_rows(data).len(),
                nrows == self.rows().len(),
                matrix_width(data) == 3,
                self.width() >= 3,
                forall|r: int| 0 <= r < nrows ==> #[trigger] matrix_rows(data)[r] == self.rows()[r].take(3),
                points.len() == i,
                forall|r: int| 0 <= r < i ==> #[trigger] points[r] == self.points()[r],
            decreases nrows - i,
        {
            let p: Point = [matrix_cell(&data, i, 0), matrix_cell(&data, i, 1), matrix_cell(&data, i, 2)];
            proof {
                let whole = self.rows()[i as int];
                assert(whole.len() >= 3);
                assert(matrix_rows(data)[i as int] == whole.take(3));
                assert(p =~= self.points()[i as int]);
            }
            points.push(p);
            i += 1;
        }
        assert(points@ =~= self.points());
        cluster(&points, k, max_iter)
    }
}

} // verus!
