use vstd::prelude::*;

use crate::error::Result;
use crate::non_empty_rect_list_2d::{flat_index, valid_dims, dims_rejected, NonEmptyRectList2D};
use crate::reach::{reachable, Cell};

verus! {

/// What a cell of the map holds.
#[derive(Clone, Copy, Debug, PartialEq, Eq, Hash, Structural)]
pub enum Terrain {
    Water,
    Land,
}

impl Default for Terrain {
    /// Cells are water unless told otherwise.
    fn default() -> (r: Self)
        ensures
            r == Terrain::Water,
    {
        Terrain::Water
    }
}

/// A non-empty rectangular map of terrain.
#[derive(Clone, Debug, PartialEq, Eq)]
pub struct World {
    list: NonEmptyRectList2D<Terrain>,
}

impl View for World {
    type V = Seq<Terrain>;

    /// The terrain in row-major order.
    closed spec fn view(&self) -> Seq<Terrain> {
        self.list@
    }
}

impl World {
    pub closed spec fn spec_rows(&self) -> int {
        self.list.spec_rows()
    }

    pub closed spec fn spec_cols(&self) -> int {
        self.list.spec_cols()
    }

    pub open spec fn wf(&self) -> bool {
        &&& valid_dims(self.spec_rows(), self.spec_cols())
        &&& self@.len() == self.spec_rows() * self.spec_cols()
    }

    pub open spec fn in_bounds(&self, row: int, col: int) -> bool {
        0 <= row < self.spec_rows() && 0 <= col < self.spec_cols()
    }

    /// The terrain at `(row, col)`.
    pub open spec fn cell(&self, row: int, col: int) -> Terrain {
        self@[flat_index(row, col, self.spec_cols())]
    }

    pub open spec fn is_land_at(&self, q: Cell) -> bool {
        self.in_bounds(q.0, q.1) && self.cell(q.0, q.1) == Terrain::Land
    }

    /// The land cells of the map.
    pub open spec fn land(&self) -> Set<Cell> {
        Set::new(|q: Cell| self.is_land_at(q))
    }

    /// `a` and `b` lie on one island: a walk over land joins them, each step horizontal
    /// or vertical.
    pub open spec fn connected(&self, a: Cell, b: Cell) -> bool {
        reachable(self.land(), a, b)
    }

    /// Builds a map of `rows` by `cols` cells, each holding `terrain`.
    ///
    /// Fails with `NoData` when `rows` or `cols` is zero, and with `TooManyElements`
    /// when `rows * cols` overflows or exceeds the largest signed index.
    pub fn new(terrain: Terrain, rows: usize, cols: usize) -> (r: Result<Self>)
        ensures
            !valid_dims(rows as int, cols as int) ==> dims_rejected(rows, cols, r),
            valid_dims(rows as int, cols as int) ==> {
                &&& r is Ok
                &&& r->Ok_0.wf()
                &&& r->Ok_0@ == Seq::new((rows * cols) as nat, |_i: int| terrain)
                &&& r->Ok_0.spec_rows() == rows
                &&& r->Ok_0.spec_cols() == cols
            },
    {
        let list = NonEmptyRectList2D::new(terrain, rows, cols)?;
        Ok(World { list })
    }

    /// Builds a map from `terrain` laid out row by row.
    ///
    /// Fails with `NoData` when `rows` or `cols` is zero, and with `TooManyElements`
    /// when `rows * cols` exceeds the largest signed index or differs from the number
    /// of cells given.
    pub fn from_vec(terrain: Vec<Terrain>, rows: usize, cols: usize) -> (r: Result<Self>)
        ensures
            !valid_dims(rows as int, cols as int) ==> dims_rejected(rows, cols, r),
            valid_dims(rows as int, cols as int) && terrain@.len() != rows * cols ==> r
                == Err::<Self, crate::error::Error>(
                crate::error::Error::TooManyElements(rows, cols),
            ),
            valid_dims(rows as int, cols as int) && terrain@.len() == rows * cols ==> {
                &&& r is Ok
                &&& r->Ok_0.wf()
                &&& r->Ok_0@ == terrain@
                &&& r->Ok_0.spec_rows() == rows
                &&& r->Ok_0.spec_cols() == cols
            },
    {
        let list = NonEmptyRectList2D::from_vec(terrain, rows, cols)?;
        Ok(World { list })
    }

    /// Number of columns.
    pub fn cols(&self) -> (r: usize)
        ensures
            r == self.spec_cols(),
    {
        self.list.cols()
    }

    /// Number of rows.
    pub fn rows(&self) -> (r: usize)
        ensures
            r == self.spec_rows(),
    {
        self.list.rows()
    }

    /// The terrain at `(row, col)`, or `None` when the coordinate lies outside the map.
    pub fn get(&self, row: usize, col: usize) -> (r: Option<&Terrain>)
        requires
            self.wf(),
        ensures
            match r {
                Some(t) => self.in_bounds(row as int, col as int) && *t == self.cell(
                    row as int,
                    col as int,
                ),
                None => !self.in_bounds(row as int, col as int),
            },
    {
        self.list.get(row, col)
    }

    /// Whether the cell at `(row, col)` is land, or `None` when the coordinate lies
    /// outside the map.
    pub fn is_land(&self, row: usize, col: usize) -> (r: Option<bool>)
        requires
            self.wf(),
        ensures
            match r {
                Some(b) => self.in_bounds(row as int, col as int) && b == self.is_land_at(
                    (row as int, col as int),
                ),
                None => !self.in_bounds(row as int, col as int),
            },
    {
        match self.list.get(row, col) {
            Some(t) => Some(*t == Terrain::Land),
            None => None,
        }
    }

    /// Whether the map holds no cells; a map always holds at least one.
    pub fn is_empty(&self) -> (r: bool)
        requires
            self.wf(),
        ensures
            r == (self@.len() == 0),
            !r,
    {
        proof {
            vstd::arithmetic::mul::lemma_mul_strictly_positive(self.spec_rows(), self.spec_cols());
        }
        self.list.iter().len() == 0
    }

    /// Writes `terrain` at `(row, col)`. Returns the map when the coordinate lies inside
    /// it, and `None`, changing nothing, when it does not.
    pub fn set(&mut self, row: usize, col: usize, terrain: Terrain) -> (r: Option<&mut Self>)
        requires
            old(self).wf(),
        ensures
            old(self).in_bounds(row as int, col as int) ==> {
                &&& r is Some
                &&& r->Some_0.wf()
                &&& r->Some_0.spec_rows() == old(self).spec_rows()
                &&& r->Some_0.spec_cols() == old(self).spec_cols()
                &&& r->Some_0@ == old(self)@.update(
                    flat_index(row as int, col as int, old(self).spec_cols()),
                    terrain,
                )
                &&& *final(self) == *final(r->Some_0)
            },
            !old(self).in_bounds(row as int, col as int) ==> r is None && *final(self)
                == *old(self),
    {
        if self.list.set(row, col, terrain).is_some() {
            Some(self)
        } else {
            None
        }
    }

    /// The terrain, row by row.
    pub fn into_vec(self) -> (r: Vec<Terrain>)
        ensures
            r@ == self@,
    {
        self.list.into_vec()
    }

    /// The terrain, row by row, as a slice.
    pub fn iter(&self) -> (r: &[Terrain])
        ensures
            r@ == self@,
    {
        self.list.iter()
    }

    /// The terrain, row by row, as a mutable slice. The map is well formed again once
    /// the slice is released, as a slice cannot change its length.
    pub fn iter_mut(&mut self) -> (r: &mut [Terrain])
        requires
            old(self).wf(),
        ensures
            r@ == old(self)@,
            final(self)@ == final(r)@,
            final(self).spec_rows() == old(self).spec_rows(),
            final(self).spec_cols() == old(self).spec_cols(),
            final(r)@.len() == r@.len() ==> final(self).wf(),
    {
        self.list.iter_mut()
    }
}

} // verus!
