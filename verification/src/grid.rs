use vstd::prelude::*;

verus! {

/// A 2D coordinate with non-negative integer components.
///
/// Used both for cell positions and for grid sizes (width in `x`, height in
/// `y`).
#[derive(Clone, Copy, Debug, PartialEq, Eq, Structural)]
pub struct VectorU {
    pub x: u32,
    pub y: u32,
}

impl VectorU {
    /// Builds the coordinate `(x, y)`.
    pub fn new(x: u32, y: u32) -> (r: Self)
        ensures
            r == (VectorU { x, y }),
    {
        VectorU { x, y }
    }
}

/// A rectangular 2D grid in which every cell carries a movement cost.
///
/// Cells are stored in a flat vector in row-major order: the cell at column
/// `x`, row `y` lives at index `y * width + x`.
pub struct Grid {
    size: VectorU,
    cells: Vec<crate::Cost>,
}

impl Grid {
    /// The grid's width (`x`) and height (`y`).
    pub closed spec fn spec_size(self) -> VectorU {
        self.size
    }

    /// The stored cost of the cell at column `x`, row `y`.
    pub closed spec fn spec_cost(self, x: int, y: int) -> crate::Cost
        recommends
            self.cell_in_bounds(x, y),
    {
        self.cells@[y * self.size.x + x]
    }

    /// One stored cost per cell, and a cell count small enough for the
    /// row-major index arithmetic to stay exact.
    #[verifier::type_invariant]
    pub closed spec fn wf(self) -> bool {
        &&& self.cells@.len() == self.size.x * self.size.y
        &&& self.size.x * self.size.y <= u32::MAX
    }

    /// Whether the (possibly signed) coordinates `x`, `y` name a cell of the
    /// grid.
    pub open spec fn cell_in_bounds(self, x: int, y: int) -> bool {
        &&& 0 <= x < self.spec_size().x
        &&& 0 <= y < self.spec_size().y
    }

    /// Whether `p` names a cell of the grid.
    pub open spec fn spec_in_bounds(self, p: VectorU) -> bool {
        self.cell_in_bounds(p.x as int, p.y as int)
    }

    /// Creates a new `Grid` of the given size with every cell set to
    /// `default_cost`.
    pub fn new(size: VectorU, default_cost: crate::Cost) -> (g: Grid)
        requires
            size.x * size.y <= u32::MAX,
        ensures
            g.spec_size() == size,
            forall|x: int, y: int|
                g.cell_in_bounds(x, y) ==> g.spec_cost(x, y) == default_cost,
    {
        let n: usize = (size.x * size.y) as usize;
        let mut cells: Vec<crate::Cost> = Vec::new();
        while cells.len() < n
            invariant
                cells@.len() <= n,
                forall|i: int| 0 <= i < cells@.len() ==> cells@[i] == default_cost,
            decreases n - cells@.len(),
        {
            cells.push(default_cost);
        }
        let g = Grid { size, cells };
        proof {
            assert forall|x: int, y: int|
                g.cell_in_bounds(x, y) implies g.spec_cost(x, y) == default_cost by {
                lemma_row_major_in_range(size.x as int, size.y as int, x, y);
            }
        }
        g
    }

    /// Whether `position` lies inside the grid.
    pub fn in_bounds(&self, position: VectorU) -> (r: bool)
        ensures
            r == self.spec_in_bounds(position),
    {
        position.x < self.size.x && position.y < self.size.y
    }

    /// Row-major index of an in-bounds cell.
    pub(crate) fn index(&self, position: VectorU) -> (i: usize)
        requires
            self.spec_in_bounds(position),
        ensures
            i == position.y * self.spec_size().x + position.x,
            i < self.spec_size().x * self.spec_size().y,
    {
        proof {
            use_type_invariant(&*self);
            lemma_row_major_in_range(
                self.size.x as int,
                self.size.y as int,
                position.x as int,
                position.y as int,
            );
        }
        (position.y * self.size.x + position.x) as usize
    }

    /// Gets the cost of the cell at `position`.
    ///
    /// Callers must check `in_bounds` first: only an in-bounds position names
    /// a cell.
    pub fn cost(&self, position: VectorU) -> (c: crate::Cost)
        requires
            self.spec_in_bounds(position),
        ensures
            c == self.spec_cost(position.x as int, position.y as int),
    {
        proof {
            use_type_invariant(&*self);
        }
        let i = self.index(position);
        self.cells[i]
    }

    /// Sets the cost of the cell at `position`, leaving every other cell
    /// unchanged.
    ///
    /// Callers must check `in_bounds` first: only an in-bounds position names
    /// a cell.
    pub fn set_cost(&mut self, position: VectorU, cost: crate::Cost)
        requires
            old(self).spec_in_bounds(position),
        ensures
            final(self).spec_size() == old(self).spec_size(),
            final(self).spec_cost(position.x as int, position.y as int) == cost,
            forall|x: int, y: int|
                old(self).cell_in_bounds(x, y) && (x != position.x || y != position.y)
                    ==> final(self).spec_cost(x, y) == old(self).spec_cost(x, y),
    {
        proof {
            use_type_invariant(&*self);
        }
        let i = self.index(position);
        self.cells[i] = cost;
        proof {
            assert forall|x: int, y: int|
                self.cell_in_bounds(x, y) && (x != position.x || y != position.y)
                    implies self.spec_cost(x, y) == old(self).spec_cost(x, y) by {
                lemma_row_major_in_range(self.size.x as int, self.size.y as int, x, y);
                lemma_row_major_injective(
                    self.size.x as int,
                    self.size.y as int,
                    x,
                    y,
                    position.x as int,
                    position.y as int,
                );
            }
        }
    }

    /// The grid's size: width in `x`, height in `y`.
    pub fn size(&self) -> (s: VectorU)
        ensures
            s == self.spec_size(),
    {
        self.size
    }

    /// The number of cells of the grid.
    pub(crate) fn cell_count(&self) -> (n: usize)
        ensures
            n == self.spec_size().x * self.spec_size().y,
    {
        proof {
            use_type_invariant(&*self);
        }
        (self.size.x * self.size.y) as usize
    }
}

/// The row-major index of an in-range cell lies below the cell count.
pub(crate) proof fn lemma_row_major_in_range(w: int, h: int, x: int, y: int)
    by (nonlinear_arith)
    requires
        0 <= x < w,
        0 <= y < h,
    ensures
        0 <= y * w + x < w * h,
{
}

/// Distinct in-range cells have distinct row-major indices.
pub(crate) proof fn lemma_row_major_injective(w: int, h: int, x1: int, y1: int, x2: int, y2: int)
    by (nonlinear_arith)
    requires
        0 <= x1 < w,
        0 <= y1 < h,
        0 <= x2 < w,
        0 <= y2 < h,
        x1 != x2 || y1 != y2,
    ensures
        y1 * w + x1 != y2 * w + x2,
{
}

} // verus!
