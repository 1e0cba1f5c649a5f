use vstd::prelude::*;

verus! {

/// Orientation and length of a ship: `(dx, dy)` is `(1, 0)` for a horizontal
/// ship and `(0, 1)` for a vertical one.
#[derive(Clone, Copy, Debug, PartialEq, Eq, Structural)]
pub struct ShipShape {
    pub dx: usize,
    pub dy: usize,
    pub size: usize,
}

impl ShipShape {
    pub open spec fn wf(&self) -> bool {
        &&& (self.dx == 1 && self.dy == 0) || (self.dx == 0 && self.dy == 1)
        &&& self.size > 0
    }

    /// A horizontal shape when `horizontal` holds, a vertical one otherwise.
    pub open spec fn spec_oriented(horizontal: bool, size: usize) -> ShipShape {
        if horizontal {
            ShipShape { dx: 1, dy: 0, size }
        } else {
            ShipShape { dx: 0, dy: 1, size }
        }
    }

    /// A horizontal shape when `horizontal` holds, a vertical one otherwise.
    pub fn oriented(horizontal: bool, size: usize) -> (r: ShipShape)
        ensures
            r == ShipShape::spec_oriented(horizontal, size),
    {
        if horizontal {
            ShipShape { dx: 1, dy: 0, size }
        } else {
            ShipShape { dx: 0, dy: 1, size }
        }
    }
}

/// A shape placed with its first cell at `(x, y)`.
#[derive(Clone, Copy, Debug, PartialEq, Eq, Structural)]
pub struct Ship {
    pub x: usize,
    pub y: usize,
    pub shape: ShipShape,
}

/// Cells `(ax, ay)` and `(bx, by)` are equal or 8-adjacent.
pub open spec fn near(ax: int, ay: int, bx: int, by: int) -> bool {
    -1 <= ax - bx <= 1 && -1 <= ay - by <= 1
}

impl Ship {
    /// Column of the `k`-th cell of the ship.
    pub open spec fn cell_x(&self, k: int) -> int {
        self.x + k * self.shape.dx
    }

    /// Row of the `k`-th cell of the ship.
    pub open spec fn cell_y(&self, k: int) -> int {
        self.y + k * self.shape.dy
    }

    /// `(x, y)` is one of the ship's cells.
    pub open spec fn covers(&self, x: int, y: int) -> bool {
        exists|k: int|
            0 <= k < self.shape.size && #[trigger] self.cell_x(k) == x && self.cell_y(k) == y
    }

    /// The last cell of the ship lies on an `n` by `n` grid.
    pub open spec fn fits(&self, n: int) -> bool {
        &&& self.x < n
        &&& self.y < n
        &&& self.cell_x(self.shape.size - 1) < n
        &&& self.cell_y(self.shape.size - 1) < n
    }

    /// For a well-formed shape the `k`-th cell moves along one axis only.
    pub proof fn lemma_cell_linear(&self, k: int)
        requires
            self.shape.wf(),
        ensures
            self.shape.dx == 1 ==> self.cell_x(k) == self.x + k && self.cell_y(k) == self.y,
            self.shape.dx == 0 ==> self.cell_x(k) == self.x && self.cell_y(k) == self.y + k,
    {
        assert(k * 1 == k && k * 0 == 0) by (nonlinear_arith);
    }

    /// When the last cell fits, every cell does.
    pub proof fn lemma_cells_in_bounds(&self, n: int)
        requires
            self.shape.wf(),
            self.fits(n),
        ensures
            forall|k: int|
                0 <= k < self.shape.size ==> 0 <= #[trigger] self.cell_x(k) < n && 0
                    <= self.cell_y(k) < n,
    {
        assert forall|k: int| 0 <= k < self.shape.size implies 0 <= #[trigger] self.cell_x(k) < n
            && 0 <= self.cell_y(k) < n by {
            self.lemma_cell_linear(k);
            self.lemma_cell_linear(self.shape.size - 1);
        }
    }

    /// Whether every cell of the ship lies on an `n` by `n` grid.
    pub fn fits_in(&self, n: usize) -> (r: bool)
        requires
            self.shape.wf(),
        ensures
            r == self.fits(n as int),
    {
        proof {
            self.lemma_cell_linear(self.shape.size - 1);
        }
        if self.x >= n || self.y >= n {
            false
        } else if self.shape.dx == 1 {
            self.shape.size <= n - self.x
        } else {
            self.shape.size <= n - self.y
        }
    }

    /// The `k`-th cell of the ship: `(x + k * dx, y + k * dy)`.
    pub fn cell(&self, k: usize) -> (r: (usize, usize))
        requires
            self.shape.wf(),
            k < self.shape.size,
            self.cell_x(k as int) <= usize::MAX,
            self.cell_y(k as int) <= usize::MAX,
        ensures
            r.0 == self.cell_x(k as int),
            r.1 == self.cell_y(k as int),
    {
        proof {
            self.lemma_cell_linear(k as int);
        }
        if self.shape.dx == 1 {
            (self.x + k, self.y)
        } else {
            (self.x, self.y + k)
        }
    }

    /// The cells of the ship, in order from its origin.
    pub fn cells(&self) -> (r: Vec<(usize, usize)>)
        requires
            self.shape.wf(),
            self.cell_x(self.shape.size - 1) <= usize::MAX,
            self.cell_y(self.shape.size - 1) <= usize::MAX,
        ensures
            r@.len() == self.shape.size,
            forall|k: int|
                0 <= k < self.shape.size ==> (#[trigger] r@[k]).0 == self.cell_x(k) && r@[k].1
                    == self.cell_y(k),
    {
        let mut r: Vec<(usize, usize)> = Vec::new();
        let mut k: usize = 0;
        while k < self.shape.size
            invariant
                self.shape.wf(),
                self.cell_x(self.shape.size - 1) <= usize::MAX,
                self.cell_y(self.shape.size - 1) <= usize::MAX,
                k <= self.shape.size,
                r@.len() == k,
                forall|j: int|
                    0 <= j < k ==> (#[trigger] r@[j]).0 == self.cell_x(j) && r@[j].1
                        == self.cell_y(j),
            decreases self.shape.size - k,
        {
            proof {
                self.lemma_cell_linear(k as int);
                self.lemma_cell_linear(self.shape.size - 1);
            }
            r.push(self.cell(k));
            k = k + 1;
        }
        r
    }
}

} // verus!
