use vstd::prelude::*;
use vstd::arithmetic::div_mod::{lemma_fundamental_div_mod, lemma_fundamental_div_mod_converse};
use itertools::Itertools;
use rand::rngs::SmallRng;
use crate::grid::{lemma_index_in_range, lemma_occupy_one, occupied_count, CellType, Field};
use crate::random::{choose_cell, flip_coin};
use crate::ship::{near, Ship, ShipShape};

verus! {

/// Why a generation produced no grid.
#[derive(Clone, Copy, Debug, PartialEq, Eq, Structural)]
pub enum GenerationError {
    /// The grid size is zero or a ship length is zero.
    InvalidConfig,
    /// The orientation drawn for a ship left no legal origin for it.
    GenerationFailed,
    /// The operating system supplied no entropy to seed a generator.
    EntropyUnavailable,
}

/// Relies on itertools::Itertools::cartesian_product over `0..n` twice: every
/// pair `(x, y)` with `x, y < n`, `x` in the outer position, both in
/// increasing order.
#[verifier::external_body]
fn grid_coordinates(n: usize) -> (r: Vec<(usize, usize)>)
    requires
        n > 0,
        n * n <= usize::MAX,
    ensures
        r@.len() == n * n,
        forall|i: int|
            0 <= i < r@.len() ==> (#[trigger] r@[i]).0 == i / (n as int) && r@[i].1 == i % (
            n as int),
{
    (0..n).cartesian_product(0..n).collect()
}

/// Position of `(x, y)` in the scan order of the enumerator.
pub open spec fn scan_key(c: (usize, usize), n: int) -> int {
    c.0 * n + c.1
}

proof fn lemma_scan_position(i: int, n: int)
    requires
        n > 0,
        0 <= i < n * n,
    ensures
        0 <= i / n < n,
        0 <= i % n < n,
        (i / n) * n + i % n == i,
{
    lemma_fundamental_div_mod(i, n);
    assert((i / n) * n == n * (i / n)) by (nonlinear_arith);
    assert(0 <= i % n < n);
    assert(0 <= i / n < n) by (nonlinear_arith)
        requires
            i == (i / n) * n + i % n,
            0 <= i % n < n,
            0 <= i < n * n,
            n > 0,
    ;
}

/// The grid after a placement depends only on the grid before and the ship:
/// two placements of one ship on one grid give the same cells.
pub proof fn lemma_stamp_deterministic(f: Field, ship: Ship, a: Field, b: Field)
    requires
        f.wf(),
        f.stamped(ship, a),
        f.stamped(ship, b),
    ensures
        a.cells@ == b.cells@,
{
    let n = f.n as int;
    assert forall|j: int| 0 <= j < a.cells@.len() implies a.cells@[j] == b.cells@[j] by {
        lemma_scan_position(j, n);
        let (y, x) = (j / n, j % n);
        assert(a.cell(x, y) == b.cell(x, y));
        assert(x + y * n == j);
    }
    assert(a.cells@ =~= b.cells@);
}

impl Field {
    /// No cell of the 3 by 3 block around `(x0, y0)` that lies on the grid is
    /// `Occupied`.
    pub open spec fn clear_around(&self, x0: int, y0: int) -> bool {
        forall|x: int, y: int|
            self.in_bounds(x, y) && near(x, y, x0, y0) ==> #[trigger] self.cell(x, y)
                != CellType::Occupied
    }

    /// `ship` may be placed: all its cells lie on the grid and are `Empty`, and
    /// no cell next to one of them, diagonals included, is `Occupied`.
    pub open spec fn can_place(&self, ship: Ship) -> bool {
        &&& ship.fits(self.n as int)
        &&& forall|k: int|
            0 <= k < ship.shape.size ==> self.cell(#[trigger] ship.cell_x(k), ship.cell_y(k))
                == CellType::Empty
        &&& forall|k: int|
            0 <= k < ship.shape.size ==> self.clear_around(#[trigger] ship.cell_x(k), ship.cell_y(k))
    }

    /// Whether the block of cells around `(x0, y0)` is free of occupied cells.
    pub fn neighborhood_clear(&self, x0: usize, y0: usize) -> (r: bool)
        requires
            self.wf(),
            self.in_bounds(x0 as int, y0 as int),
        ensures
            r == self.clear_around(x0 as int, y0 as int),
    {
        let n = self.n;
        let x_lo: usize = if x0 == 0 { 0 } else { x0 - 1 };
        let x_hi: usize = if x0 + 1 < n { x0 + 1 } else { x0 };
        let y_lo: usize = if y0 == 0 { 0 } else { y0 - 1 };
        let y_hi: usize = if y0 + 1 < n { y0 + 1 } else { y0 };
        let mut x: usize = x_lo;
        while x <= x_hi
            invariant
                self.wf(),
                n == self.n,
                x_lo <= x <= x_hi + 1,
                x_hi < n,
                y_hi < n,
                x_lo == if x0 == 0 { 0 } else { x0 - 1 },
                x_hi == if x0 + 1 < n { x0 + 1 } else { x0 as int },
                y_lo == if y0 == 0 { 0 } else { y0 - 1 },
                y_hi == if y0 + 1 < n { y0 + 1 } else { y0 as int },
                forall|a: int, b: int|
                    self.in_bounds(a, b) && near(a, b, x0 as int, y0 as int) && a < x
                        ==> #[trigger] self.cell(a, b) != CellType::Occupied,
            decreases x_hi + 1 - x,
        {
            let mut y: usize = y_lo;
            while y <= y_hi
                invariant
                    self.wf(),
                    n == self.n,
                    x_lo <= x <= x_hi,
                    y_lo <= y <= y_hi + 1,
                    x_hi < n,
                    y_hi < n,
                    x_lo == if x0 == 0 { 0 } else { x0 - 1 },
                    x_hi == if x0 + 1 < n { x0 + 1 } else { x0 as int },
                    y_lo == if y0 == 0 { 0 } else { y0 - 1 },
                    y_hi == if y0 + 1 < n { y0 + 1 } else { y0 as int },
                    forall|a: int, b: int|
                        self.in_bounds(a, b) && near(a, b, x0 as int, y0 as int) && (a < x || (a
                            == x && b < y)) ==> #[trigger] self.cell(a, b) != CellType::Occupied,
                decreases y_hi + 1 - y,
            {
                if self.get(x, y) == CellType::Occupied {
                    return false;
                }
                y = y + 1;
            }
            x = x + 1;
        }
        true
    }

    /// Whether `ship` may be placed on the grid.
    ///
    /// First the block around each of its cells is searched for an occupied
    /// cell, then each of its cells must lie on the grid and be `Empty`.
    pub fn can_place_ship(&self, ship: Ship) -> (r: bool)
        requires
            self.wf(),
            ship.shape.wf(),
        ensures
            r == self.can_place(ship),
    {
        if !ship.fits_in(self.n) {
            return false;
        }
        proof {
            ship.lemma_cells_in_bounds(self.n as int);
        }
        let cells = ship.cells();
        let mut i: usize = 0;
        while i < cells.len()
            invariant
                self.wf(),
                ship.shape.wf(),
                ship.fits(self.n as int),
                cells@.len() == ship.shape.size,
                forall|k: int|
                    0 <= k < ship.shape.size ==> (#[trigger] cells@[k]).0 == ship.cell_x(k)
                        && cells@[k].1 == ship.cell_y(k),
                forall|k: int|
                    0 <= k < ship.shape.size ==> 0 <= #[trigger] ship.cell_x(k) < self.n && 0
                        <= ship.cell_y(k) < self.n,
                i <= cells@.len(),
                forall|k: int|
                    0 <= k < i ==> self.clear_around(#[trigger] ship.cell_x(k), ship.cell_y(k)),
            decreases cells@.len() - i,
        {
            let (x, y) = cells[i];
            assert(ship.cell_x(i as int) == x);
            if !self.neighborhood_clear(x, y) {
                return false;
            }
            i = i + 1;
        }
        let mut i: usize = 0;
        while i < cells.len()
            invariant
                self.wf(),
                ship.shape.wf(),
                ship.fits(self.n as int),
                cells@.len() == ship.shape.size,
                forall|k: int|
                    0 <= k < ship.shape.size ==> (#[trigger] cells@[k]).0 == ship.cell_x(k)
                        && cells@[k].1 == ship.cell_y(k),
                forall|k: int|
                    0 <= k < ship.shape.size ==> 0 <= #[trigger] ship.cell_x(k) < self.n && 0
                        <= ship.cell_y(k) < self.n,
                forall|k: int|
                    0 <= k < ship.shape.size ==> self.clear_around(
                        #[trigger] ship.cell_x(k),
                        ship.cell_y(k),
                    ),
                i <= cells@.len(),
                forall|k: int|
                    0 <= k < i ==> self.cell(#[trigger] ship.cell_x(k), ship.cell_y(k))
                        == CellType::Empty,
            decreases cells@.len() - i,
        {
            let (x, y) = cells[i];
            assert(ship.cell_x(i as int) == x);
            if self.get(x, y) != CellType::Empty {
                return false;
            }
            i = i + 1;
        }
        true
    }
    /// Every origin at which a ship of `shape` may be placed, in scan order:
    /// by column, then by row.
    pub fn get_available_cells(&self, shape: ShipShape) -> (r: Vec<(usize, usize)>)
        requires
            self.wf(),
            shape.wf(),
        ensures
            forall|j: int|
                0 <= j < r@.len() ==> self.in_bounds((#[trigger] r@[j]).0 as int, r@[j].1 as int)
                    && self.can_place(Ship { x: r@[j].0, y: r@[j].1, shape }),
            forall|x: usize, y: usize|
                self.in_bounds(x as int, y as int) && #[trigger] self.can_place(
                    Ship { x, y, shape },
                ) ==> r@.contains((x, y)),
            forall|i: int, j: int|
                0 <= i < j < r@.len() ==> scan_key(#[trigger] r@[i], self.n as int) < scan_key(
                    #[trigger] r@[j],
                    self.n as int,
                ),
    {
        let n = self.n;
        let coordinates = grid_coordinates(n);
        let mut r: Vec<(usize, usize)> = Vec::new();
        let mut i: usize = 0;
        while i < coordinates.len()
            invariant
                self.wf(),
                shape.wf(),
                n == self.n,
                coordinates@.len() == n * n,
                forall|t: int|
                    0 <= t < coordinates@.len() ==> (#[trigger] coordinates@[t]).0 == t / (
                    n as int) && coordinates@[t].1 == t % (n as int),
                i <= coordinates@.len(),
                forall|j: int|
                    0 <= j < r@.len() ==> self.in_bounds(
                        (#[trigger] r@[j]).0 as int,
                        r@[j].1 as int,
                    ) && self.can_place(Ship { x: r@[j].0, y: r@[j].1, shape }) && scan_key(
                        r@[j],
                        n as int,
                    ) < i,
                forall|x: usize, y: usize|
                    self.in_bounds(x as int, y as int) && #[trigger] self.can_place(
                        Ship { x, y, shape },
                    ) && scan_key((x, y), n as int) < i ==> r@.contains((x, y)),
                forall|a: int, b: int|
                    0 <= a < b < r@.len() ==> scan_key(#[trigger] r@[a], n as int) < scan_key(
                        #[trigger] r@[b],
                        n as int,
                    ),
            decreases coordinates@.len() - i,
        {
            let (x, y) = coordinates[i];
            proof {
                lemma_scan_position(i as int, n as int);
                assert(scan_key((x, y), n as int) == i);
                assert forall|a: usize, b: usize|
                    self.in_bounds(a as int, b as int) && scan_key((a, b), n as int)
                        == i implies a == x && b == y by {
                    lemma_fundamental_div_mod_converse(i as int, n as int, a as int, b as int);
                }
            }
            let ghost before = r@;
            if self.can_place_ship(Ship { x, y, shape }) {
                r.push((x, y));
                proof {
                    assert forall|a: usize, b: usize|
                        self.in_bounds(a as int, b as int) && #[trigger] self.can_place(
                            Ship { x: a, y: b, shape },
                        ) && scan_key((a, b), n as int) < i + 1 implies r@.contains((a, b)) by {
                        if scan_key((a, b), n as int) < i {
                            let t = choose|t: int| 0 <= t < before.len() && before[t] == (a, b);
                            assert(r@[t] == (a, b));
                        } else {
                            assert(r@[r@.len() - 1] == (a, b));
                        }
                    }
                }
            }
            i = i + 1;
        }
        assert forall|x: usize, y: usize|
            self.in_bounds(x as int, y as int) && #[trigger] self.can_place(
                Ship { x, y, shape },
            ) implies r@.contains((x, y)) by {
            lemma_index_in_range(y as int, x as int, n as int);
        }
        r
    }

    /// Some origin on the grid is legal for a ship of `shape`.
    pub open spec fn has_origin(&self, shape: ShipShape) -> bool {
        exists|x: usize, y: usize|
            self.in_bounds(x as int, y as int) && #[trigger] self.can_place(Ship { x, y, shape })
    }

    /// `after` is `self` with every cell of `ship` set to `Occupied`.
    pub open spec fn stamped(&self, ship: Ship, after: Field) -> bool {
        &&& after.wf()
        &&& after.n == self.n
        &&& forall|x: int, y: int|
            self.in_bounds(x, y) ==> #[trigger] after.cell(x, y) == if ship.covers(x, y) {
                CellType::Occupied
            } else {
                self.cell(x, y)
            }
    }

    /// Marks every cell of `ship` as `Occupied`.
    pub fn place_ship(&mut self, ship: Ship)
        requires
            old(self).wf(),
            ship.shape.wf(),
            ship.fits(old(self).n as int),
        ensures
            old(self).stamped(ship, *final(self)),
            (forall|k: int|
                0 <= k < ship.shape.size ==> old(self).cell(
                    #[trigger] ship.cell_x(k),
                    ship.cell_y(k),
                ) != CellType::Occupied) ==> occupied_count(final(self).cells@) == occupied_count(
                old(self).cells@,
            ) + ship.shape.size,
    {
        proof {
            ship.lemma_cells_in_bounds(self.n as int);
        }
        let ghost start = *self;
        let ghost fresh = forall|k: int|
            0 <= k < ship.shape.size ==> start.cell(#[trigger] ship.cell_x(k), ship.cell_y(k))
                != CellType::Occupied;
        let mut k: usize = 0;
        while k < ship.shape.size
            invariant
                start.wf(),
                self.wf(),
                self.n == start.n,
                ship.shape.wf(),
                ship.fits(start.n as int),
                forall|j: int|
                    0 <= j < ship.shape.size ==> 0 <= #[trigger] ship.cell_x(j) < start.n && 0
                        <= ship.cell_y(j) < start.n,
                fresh == forall|j: int|
                    0 <= j < ship.shape.size ==> start.cell(#[trigger] ship.cell_x(j), ship.cell_y(j))
                        != CellType::Occupied,
                k <= ship.shape.size,
                forall|x: int, y: int|
                    start.in_bounds(x, y) ==> #[trigger] self.cell(x, y) == if exists|j: int|
                        0 <= j < k && #[trigger] ship.cell_x(j) == x && ship.cell_y(j) == y {
                        CellType::Occupied
                    } else {
                        start.cell(x, y)
                    },
                fresh ==> occupied_count(self.cells@) == occupied_count(start.cells@) + k,
            decreases ship.shape.size - k,
        {
            let (x, y) = ship.cell(k);
            proof {
                ship.lemma_cell_linear(k as int);
                assert forall|j: int| 0 <= j < k implies !(#[trigger] ship.cell_x(j) == x
                    && ship.cell_y(j) == y) by {
                    ship.lemma_cell_linear(j);
                }
                assert(self.cell(x as int, y as int) == start.cell(x as int, y as int));
                lemma_index_in_range(x as int, y as int, self.n as int);
                if fresh {
                    lemma_occupy_one(self.cells@, x + y * self.n);
                }
            }
            self.set(x, y, CellType::Occupied);
            k = k + 1;
        }
    }

    /// Places one ship of length `size` in the given orientation at one of
    /// the legal origins for it, picked at random.
    ///
    /// Fails, leaving the grid as it was, exactly when that orientation has
    /// no legal origin; the other orientation is not tried.
    pub fn emplace_oriented(&mut self, horizontal: bool, size: usize, rng: &mut SmallRng) -> (r:
        Result<Ship, GenerationError>)
        requires
            old(self).wf(),
            size > 0,
        ensures
            r is Err <==> !old(self).has_origin(ShipShape::spec_oriented(horizontal, size)),
            match r {
                Ok(ship) => {
                    &&& ship.shape == ShipShape::spec_oriented(horizontal, size)
                    &&& ship.shape.wf()
                    &&& old(self).in_bounds(ship.x as int, ship.y as int)
                    &&& old(self).can_place(ship)
                    &&& old(self).stamped(ship, *final(self))
                    &&& occupied_count(final(self).cells@) == occupied_count(old(self).cells@)
                        + size
                },
                Err(e) => {
                    &&& e == GenerationError::GenerationFailed
                    &&& *final(self) == *old(self)
                },
            },
    {
        let shape = ShipShape::oriented(horizontal, size);
        let cells = self.get_available_cells(shape);
        match choose_cell(rng, &cells) {
            None => {
                proof {
                    if self.has_origin(shape) {
                        let (x, y) = choose|x: usize, y: usize|
                            self.in_bounds(x as int, y as int) && #[trigger] self.can_place(
                                Ship { x, y, shape },
                            );
                        assert(cells@.contains((x, y)));
                    }
                }
                Err(GenerationError::GenerationFailed)
            },
            Some((x, y)) => {
                let ship = Ship { x, y, shape };
                let ghost t = choose|t: int| 0 <= t < cells@.len() && cells@[t] == (x, y);
                assert(self.can_place(ship));
                assert(self.in_bounds(x as int, y as int));
                assert(self.has_origin(shape));
                self.place_ship(ship);
                Ok(ship)
            },
        }
    }

    /// Places one ship of length `size`: flips a coin for its orientation,
    /// then places it with `emplace_oriented`. Boards are thus drawn
    /// orientation first, then uniformly among the origins of that
    /// orientation; when the drawn orientation has no legal origin the call
    /// fails, leaving the grid as it was, even if the other one has some.
    pub fn emplace_ships(&mut self, size: usize, rng: &mut SmallRng) -> (r: Result<
        Ship,
        GenerationError,
    >)
        requires
            old(self).wf(),
            size > 0,
        ensures
            match r {
                Ok(ship) => {
                    &&& ship.shape.wf()
                    &&& ship.shape.size == size
                    &&& old(self).has_origin(ship.shape)
                    &&& old(self).in_bounds(ship.x as int, ship.y as int)
                    &&& old(self).can_place(ship)
                    &&& old(self).stamped(ship, *final(self))
                    &&& occupied_count(final(self).cells@) == occupied_count(old(self).cells@)
                        + size
                },
                Err(e) => {
                    &&& e == GenerationError::GenerationFailed
                    &&& *final(self) == *old(self)
                    &&& (!old(self).has_origin(ShipShape::spec_oriented(true, size))
                        || !old(self).has_origin(ShipShape::spec_oriented(false, size)))
                },
            },
            old(self).has_origin(ShipShape::spec_oriented(true, size)) && old(self).has_origin(
                ShipShape::spec_oriented(false, size),
            ) ==> r is Ok,
            !old(self).has_origin(ShipShape::spec_oriented(true, size)) && !old(self).has_origin(
                ShipShape::spec_oriented(false, size),
            ) ==> r is Err,
    {
        let horizontal = flip_coin(rng);
        self.emplace_oriented(horizontal, size, rng)
    }
}

} // verus!
