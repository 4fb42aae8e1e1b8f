use vstd::prelude::*;

use crate::error::{Error, Result};

verus! {

/// The largest number of cells a grid may hold: the largest signed index.
pub const MAX_ELEMENTS: usize = isize::MAX as usize;

/// Flat index of cell `(row, col)` in a grid of `cols` columns.
pub open spec fn flat_index(row: int, col: int, cols: int) -> int {
    row * cols + col
}

/// Dimensions that a grid may have: both non-zero, and at most `MAX_ELEMENTS` cells.
pub open spec fn valid_dims(rows: int, cols: int) -> bool {
    1 <= rows && 1 <= cols && rows * cols <= MAX_ELEMENTS
}

/// Whether building a grid of `rows` by `cols` fails, and with which error: `NoData`
/// when either is zero, else `TooManyElements` when the cells would exceed
/// `MAX_ELEMENTS`.
pub open spec fn dims_rejected<V>(rows: usize, cols: usize, r: Result<V>) -> bool {
    if rows == 0 || cols == 0 {
        r is Err && r->Err_0 is NoData
    } else {
        rows * cols > MAX_ELEMENTS && r == Err::<V, Error>(Error::TooManyElements(rows, cols))
    }
}

/// A cell inside the grid lies at a flat index inside the backing sequence.
pub proof fn lemma_flat_index_in_bounds(row: int, col: int, rows: int, cols: int)
    requires
        0 <= row < rows,
        0 <= col < cols,
    ensures
        0 <= flat_index(row, col, cols) < rows * cols,
        flat_index(row, col, cols) + 1 <= rows * cols,
{
    assert(row * cols + col < rows * cols) by (nonlinear_arith)
        requires 0 <= row < rows, 0 <= col < cols;
    assert(0 <= row * cols) by (nonlinear_arith)
        requires 0 <= row, 0 <= col < cols;
}

/// Distinct cells have distinct flat indices.
pub proof fn lemma_flat_index_injective(r1: int, c1: int, r2: int, c2: int, cols: int)
    requires
        0 <= r1,
        0 <= r2,
        0 <= c1 < cols,
        0 <= c2 < cols,
        flat_index(r1, c1, cols) == flat_index(r2, c2, cols),
    ensures
        r1 == r2,
        c1 == c2,
{
    if r1 < r2 {
        assert(r1 * cols + cols <= r2 * cols) by (nonlinear_arith)
            requires r1 < r2, 0 < cols;
    } else if r2 < r1 {
        assert(r2 * cols + cols <= r1 * cols) by (nonlinear_arith)
            requires r2 < r1, 0 < cols;
    }
}

/// A non-empty rectangular grid of `rows` by `cols` items, stored row by row in one
/// sequence.
#[derive(Clone, Debug, PartialEq, Eq)]
pub struct NonEmptyRectList2D<T> {
    list: Vec<T>,
    cols: usize,
    rows: usize,
}

impl<T> View for NonEmptyRectList2D<T> {
    type V = Seq<T>;

    /// The items in row-major order.
    closed spec fn view(&self) -> Seq<T> {
        self.list@
    }
}

impl<T: Copy> NonEmptyRectList2D<T> {
    /// Builds a grid of `rows` by `cols` items, each a copy of `value`.
    ///
    /// Fails with `NoData` when `rows` or `cols` is zero, and with `TooManyElements`
    /// when `rows * cols` overflows or exceeds `MAX_ELEMENTS`.
    pub fn new(value: T, rows: usize, cols: usize) -> (r: Result<Self>)
        ensures
            !valid_dims(rows as int, cols as int) ==> dims_rejected(rows, cols, r),
            valid_dims(rows as int, cols as int) ==> {
                &&& r is Ok
                &&& r->Ok_0.wf()
                &&& r->Ok_0@ == Seq::new((rows * cols) as nat, |_i: int| value)
                &&& r->Ok_0.spec_rows() == rows
                &&& r->Ok_0.spec_cols() == cols
            },
    {
        Self::check_dims(rows, cols)?;
        Ok(Self::filled(value, rows, cols))
    }

    /// A grid of `rows` by `cols` copies of `value`, for dimensions known to be valid.
    pub(crate) fn filled(value: T, rows: usize, cols: usize) -> (r: Self)
        requires
            valid_dims(rows as int, cols as int),
        ensures
            r.wf(),
            r@ == Seq::new((rows * cols) as nat, |_i: int| value),
            r.spec_rows() == rows,
            r.spec_cols() == cols,
    {
        let n = rows * cols;
        let mut list: Vec<T> = Vec::new();
        let mut i: usize = 0;
        while i < n
            invariant
                i <= n,
                list@ =~= Seq::new(i as nat, |_i: int| value),
            decreases n - i,
        {
            list.push(value);
            i = i + 1;
        }
        NonEmptyRectList2D { list, cols, rows }
    }
}

impl<T> NonEmptyRectList2D<T> {
    pub closed spec fn spec_rows(&self) -> int {
        self.rows as int
    }

    pub closed spec fn spec_cols(&self) -> int {
        self.cols as int
    }

    /// The dimensions are valid and the items fill the grid exactly.
    pub open spec fn wf(&self) -> bool {
        &&& valid_dims(self.spec_rows(), self.spec_cols())
        &&& self@.len() == self.spec_rows() * self.spec_cols()
    }

    pub open spec fn in_bounds(&self, row: int, col: int) -> bool {
        0 <= row < self.spec_rows() && 0 <= col < self.spec_cols()
    }

    /// The item at `(row, col)`.
    pub open spec fn cell(&self, row: int, col: int) -> T {
        self@[flat_index(row, col, self.spec_cols())]
    }

    /// Checks the dimensions of a grid: `NoData` when either is zero, `TooManyElements`
    /// when their product overflows or exceeds `MAX_ELEMENTS`.
    fn check_dims(rows: usize, cols: usize) -> (r: Result<usize>)
        ensures
            valid_dims(rows as int, cols as int) ==> r == Ok::<usize, Error>((rows * cols) as usize),
            !valid_dims(rows as int, cols as int) ==> dims_rejected(rows, cols, r),
    {
        if rows == 0 || cols == 0 {
            return Err(Error::NoData(no_data_message()));
        }
        match rows.checked_mul(cols) {
            Some(n) if n <= MAX_ELEMENTS => Ok(n),
            _ => Err(Error::TooManyElements(rows, cols)),
        }
    }

    /// Builds a grid from `values` laid out row by row.
    ///
    /// Fails with `NoData` when `rows` or `cols` is zero, and with `TooManyElements`
    /// when `rows * cols` exceeds `MAX_ELEMENTS` or differs from the number of values.
    pub fn from_vec(values: Vec<T>, rows: usize, cols: usize) -> (r: Result<Self>)
        ensures
            !valid_dims(rows as int, cols as int) ==> dims_rejected(rows, cols, r),
            valid_dims(rows as int, cols as int) && values@.len() != rows * cols ==> r
                == Err::<Self, Error>(Error::TooManyElements(rows, cols)),
            valid_dims(rows as int, cols as int) && values@.len() == rows * cols ==> {
                &&& r is Ok
                &&& r->Ok_0.wf()
                &&& r->Ok_0@ == values@
                &&& r->Ok_0.spec_rows() == rows
                &&& r->Ok_0.spec_cols() == cols
            },
    {
        let n = Self::check_dims(rows, cols)?;
        if n != values.len() {
            return Err(Error::TooManyElements(rows, cols));
        }
        Ok(NonEmptyRectList2D { list: values, cols, rows })
    }

    /// Writes `value` at `(row, col)`. Returns the grid when the coordinate lies inside
    /// it, and `None`, changing nothing, when it does not.
    pub fn set(&mut self, row: usize, col: usize, value: T) -> (r: Option<&mut Self>)
        requires
            old(self).wf(),
        ensures
            old(self).in_bounds(row as int, col as int) ==> {
                &&& r is Some
                &&& r->Some_0.wf()
                &&& r->Some_0.spec_rows() == old(self).spec_rows()
                &&& r->Some_0.spec_cols() == old(self).spec_cols()
                &&& r->Some_0@ == old(self)@.update(
                    flat_index(row as int, col as int, old(self).spec_cols()),
                    value,
                )
                &&& *final(self) == *final(r->Some_0)
            },
            !old(self).in_bounds(row as int, col as int) ==> r is None && *final(self)
                == *old(self),
    {
        if row < self.rows && col < self.cols {
            proof {
                lemma_flat_index_in_bounds(row as int, col as int, self.rows as int, self.cols as int);
            }
            let idx = row * self.cols + col;
            self.list.set(idx, value);
            Some(self)
        } else {
            None
        }
    }

    /// The items, row by row, as a mutable slice. The grid is well formed again once the
    /// slice is released, as a slice cannot change its length.
    pub fn iter_mut(&mut self) -> (r: &mut [T])
        requires
            old(self).wf(),
        ensures
            r@ == old(self)@,
            final(self)@ == final(r)@,
            final(self).spec_rows() == old(self).spec_rows(),
            final(self).spec_cols() == old(self).spec_cols(),
            final(r)@.len() == r@.len() ==> final(self).wf(),
    {
        self.list.as_mut_slice()
    }

    /// Number of columns.
    pub fn cols(&self) -> (r: usize)
        ensures
            r == self.spec_cols(),
    {
        self.cols
    }

    /// Number of rows.
    pub fn rows(&self) -> (r: usize)
        ensures
            r == self.spec_rows(),
    {
        self.rows
    }

    /// The item at `(row, col)`, or `None` when the coordinate lies outside the grid.
    pub fn get(&self, row: usize, col: usize) -> (r: Option<&T>)
        requires
            self.wf(),
        ensures
            match r {
                Some(v) => self.in_bounds(row as int, col as int) && *v == self.cell(
                    row as int,
                    col as int,
                ),
                None => !self.in_bounds(row as int, col as int),
            },
    {
        if row < self.rows && col < self.cols {
            proof {
                lemma_flat_index_in_bounds(row as int, col as int, self.rows as int, self.cols as int);
            }
            Some(&self.list[row * self.cols + col])
        } else {
            None
        }
    }

    /// The items, row by row.
    pub fn into_vec(self) -> (r: Vec<T>)
        ensures
            r@ == self@,
    {
        self.list
    }

    /// The items, row by row, as a slice.
    pub fn iter(&self) -> (r: &[T])
        ensures
            r@ == self@,
    {
        self.list.as_slice()
    }
}

fn no_data_message() -> String {
    "a grid needs at least one row and one column".to_owned()
}

} // verus!
