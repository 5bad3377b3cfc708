//! Dense two-dimensional grid with row-major flat backing, and a
//! forward-only cursor over its cells.

use vstd::prelude::*;

verus! {

/// Fixed-size grid of `rows x cols` cells.
pub struct Grid<T> {
    rows: usize,
    cols: usize,
    data: Vec<T>,
}

impl<T: Copy> Grid<T> {
    /// The cells in row-major order.
    pub closed spec fn view(&self) -> Seq<T> {
        self.data@
    }

    /// Number of rows.
    pub closed spec fn spec_rows(&self) -> nat {
        self.rows as nat
    }

    /// Number of columns.
    pub closed spec fn spec_cols(&self) -> nat {
        self.cols as nat
    }

    /// Well-formed: the flat backing holds one value per cell.
    pub closed spec fn inv(&self) -> bool {
        self.data@.len() == self.rows * self.cols
    }

    /// Value of cell `(x, y)`.
    pub open spec fn spec_at(&self, x: int, y: int) -> T {
        self@[x * self.spec_cols() + y]
    }

    /// Fresh grid with every cell set to `default`.
    pub fn new(rows: usize, cols: usize, default: T) -> (r: Self)
        requires
            rows * cols <= usize::MAX,
        ensures
            r.inv(),
            r.spec_rows() == rows,
            r.spec_cols() == cols,
            r@ == Seq::new((rows * cols) as nat, |k: int| default),
    {
        let n = rows * cols;
        let mut data: Vec<T> = Vec::new();
        let mut i: usize = 0;
        while i < n
            invariant
                data@.len() == i,
                i <= n,
                forall|k: int| 0 <= k < i ==> data@[k] == default,
            decreases n - i,
        {
            data.push(default);
            i = i + 1;
        }
        let r = Grid { rows, cols, data };
        proof {
            assert(r@ =~= Seq::new((rows * cols) as nat, |k: int| default));
        }
        r
    }

    /// Number of rows.
    pub fn num_rows(&self) -> (r: usize)
        ensures
            r == self.spec_rows(),
    {
        self.rows
    }

    /// Number of columns.
    pub fn num_cols(&self) -> (r: usize)
        ensures
            r == self.spec_cols(),
    {
        self.cols
    }

    /// Reads cell `(x, y)`.
    pub fn get(&self, x: usize, y: usize) -> (r: T)
        requires
            self.inv(),
            x < self.spec_rows(),
            y < self.spec_cols(),
        ensures
            r == self.spec_at(x as int, y as int),
    {
        let nlen = self.data.len();
        proof {
            lemma_row_major_bounds(
                self.spec_rows() as int,
                self.spec_cols() as int,
                x as int,
                y as int,
            );
        }
        self.data[x * self.cols + y]
    }

    /// Writes cell `(x, y)`.
    pub fn set(&mut self, x: usize, y: usize, v: T)
        requires
            old(self).inv(),
            x < old(self).spec_rows(),
            y < old(self).spec_cols(),
        ensures
            final(self).inv(),
            final(self).spec_rows() == old(self).spec_rows(),
            final(self).spec_cols() == old(self).spec_cols(),
            final(self)@ == old(self)@.update(
                x as int * old(self).spec_cols() + y as int,
                v,
            ),
    {
        let nlen = self.data.len();
        proof {
            lemma_row_major_bounds(
                self.spec_rows() as int,
                self.spec_cols() as int,
                x as int,
                y as int,
            );
        }
        let idx = x * self.cols + y;
        self.data[idx] = v;
    }

    /// A forward-only cursor over the cells in row-major order,
    /// starting at `(0, 0)`.
    pub fn cells(&self) -> (it: GridCells<'_, T>)
        requires
            self.inv(),
        ensures
            it.grid() == self,
            it.pos() == (0int, 0int),
            it.inv(),
    {
        GridCells { grid: self, x: 0, y: 0 }
    }
}

/// A row-major flat index stays within the grid.
pub(crate) proof fn lemma_row_major_bounds(rows: int, cols: int, x: int, y: int)
    requires
        0 <= x < rows,
        0 <= y < cols,
    ensures
        0 <= x * cols + y < rows * cols,
{
    vstd::arithmetic::mul::lemma_mul_inequality(x + 1, rows, cols);
    vstd::arithmetic::mul::lemma_mul_is_distributive_add_other_way(cols, x, 1);
    vstd::arithmetic::mul::lemma_mul_nonnegative(x, cols);
    vstd::arithmetic::mul::lemma_mul_basics(cols);
}

/// Forward-only, non-restartable cursor over a grid's cells.
pub struct GridCells<'a, T> {
    grid: &'a Grid<T>,
    x: usize,
    y: usize,
}

impl<'a, T: Copy> GridCells<'a, T> {
    /// The grid being walked.
    pub closed spec fn grid(&self) -> &'a Grid<T> {
        self.grid
    }

    /// Current position, as `(row, column)`.
    pub closed spec fn pos(&self) -> (int, int) {
        (self.x as int, self.y as int)
    }

    /// The cursor is at a valid position: inside the grid, or exactly
    /// one row past its end.
    pub closed spec fn inv(&self) -> bool {
        &&& self.grid.inv()
        &&& self.y < self.grid.spec_cols() || (self.y == 0 && self.grid.spec_cols() == 0)
        &&& self.x <= self.grid.spec_rows()
    }

    /// Yields the current cell's coordinates and value and advances in
    /// row-major order, or reports exhaustion.
    pub fn next(&mut self) -> (r: Option<((usize, usize), T)>)
        requires
            old(self).inv(),
        ensures
            final(self).inv(),
            final(self).grid() == old(self).grid(),
            old(self).pos().0 == old(self).grid().spec_rows() ==> r is None && final(self).pos()
                == old(self).pos(),
            old(self).grid().spec_cols() == 0 && old(self).pos().0 < old(self).grid().spec_rows()
                ==> r is None && final(self).pos() == (old(self).grid().spec_rows() as int, 0int),
            old(self).pos().0 < old(self).grid().spec_rows() && old(self).grid().spec_cols() > 0
                ==> r == Some(
                (
                    (old(self).pos().0 as usize, old(self).pos().1 as usize),
                    old(self).grid().spec_at(old(self).pos().0, old(self).pos().1),
                ),
            ) && final(self).pos() == (
                if old(self).pos().1 + 1 == old(self).grid().spec_cols() {
                    (old(self).pos().0 + 1, 0int)
                } else {
                    (old(self).pos().0, old(self).pos().1 + 1)
                }
            ),
    {
        if self.x == self.grid.num_rows() || self.grid.num_cols() == 0 {
            if self.grid.num_cols() == 0 && self.x < self.grid.num_rows() {
                self.x = self.grid.num_rows();
            }
            return None;
        }
        let item = ((self.x, self.y), self.grid.get(self.x, self.y));
        if self.y + 1 == self.grid.num_cols() {
            self.x = self.x + 1;
            self.y = 0;
        } else {
            self.y = self.y + 1;
        }
        Some(item)
    }
}

} // verus!
