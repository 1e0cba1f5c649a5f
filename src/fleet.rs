use vstd::prelude::*;
use rand::rngs::SmallRng;
use crate::grid::{occupied_count, CellType, Field};
use crate::placement::GenerationError;
use crate::random::fresh_rng;
use crate::ship::{near, Ship, ShipShape};

verus! {

/// Sum of the ship lengths of a fleet.
pub open spec fn fleet_total(fleet: Seq<usize>) -> nat
    decreases fleet.len(),
{
    if fleet.len() == 0 {
        0
    } else {
        fleet_total(fleet.drop_last()) + fleet.last() as nat
    }
}

impl Field {
    /// No cell on the grid next to a cell of `ship`, diagonals included, is
    /// `Occupied` unless it is a cell of `ship` itself.
    pub open spec fn apart(&self, ship: Ship) -> bool {
        forall|k: int, x: int, y: int|
            #![trigger self.cell(x, y), ship.cell_x(k)]
            0 <= k < ship.shape.size && self.in_bounds(x, y) && near(
                x,
                y,
                ship.cell_x(k),
                ship.cell_y(k),
            ) && !ship.covers(x, y) ==> self.cell(x, y) != CellType::Occupied
    }

    /// The grid holds exactly the ships `ships`, the `i`-th of length
    /// `fleet[i]`: each is a straight run on the grid, no two share a cell, no
    /// two touch, and the `Occupied` cells are exactly their cells.
    pub open spec fn is_layout(&self, fleet: Seq<usize>, ships: Seq<Ship>) -> bool {
        &&& ships.len() == fleet.len()
        &&& forall|i: int|
            0 <= i < ships.len() ==> {
                &&& (#[trigger] ships[i]).shape.wf()
                &&& ships[i].shape.size == fleet[i]
                &&& ships[i].fits(self.n as int)
                &&& self.apart(ships[i])
            }
        &&& forall|x: int, y: int|
            self.in_bounds(x, y) ==> (#[trigger] self.cell(x, y) == CellType::Occupied <==> exists|
                i: int,
            | 0 <= i < ships.len() && (#[trigger] ships[i]).covers(x, y))
        &&& forall|i: int, j: int, x: int, y: int|
            0 <= i < j < ships.len() ==> !(#[trigger] ships[i].covers(x, y) && #[trigger] ships[
                j].covers(x, y))
    }

    /// The grid is a finished layout of `fleet` on a grid of side `n`.
    pub open spec fn is_generated(&self, n: usize, fleet: Seq<usize>) -> bool {
        &&& self.wf()
        &&& self.n == n
        &&& occupied_count(self.cells@) == fleet_total(fleet)
        &&& self.free_cells_empty()
        &&& exists|ships: Seq<Ship>| self.is_layout(fleet, ships)
    }

    /// Every cell that is not `Occupied` is `Empty`.
    pub open spec fn free_cells_empty(&self) -> bool {
        forall|x: int, y: int|
            self.in_bounds(x, y) && #[trigger] self.cell(x, y) != CellType::Occupied ==> self.cell(
                x,
                y,
            ) == CellType::Empty
    }
}

/// Placing ship `i` of `fleet` may fail on `g`, a grid of side `n` that holds
/// the ships before it: one of the two orientations leaves it no legal
/// origin.
pub open spec fn may_fail_at(g: Field, n: usize, fleet: Seq<usize>, i: int, ships: Seq<Ship>) -> bool {
    &&& 0 <= i < fleet.len()
    &&& g.wf()
    &&& g.n == n
    &&& g.free_cells_empty()
    &&& g.is_layout(fleet.subrange(0, i), ships)
    &&& (!g.has_origin(ShipShape::spec_oriented(true, fleet[i])) || !g.has_origin(
        ShipShape::spec_oriented(false, fleet[i]),
    ))
}

/// On a grid that holds no ship yet, a ship no longer than the grid's side
/// has a legal origin in either orientation, so placing the first ship of a
/// fleet fails only when it is longer than the side.
pub proof fn lemma_first_ship_fails_only_when_too_long(
    g: Field,
    n: usize,
    fleet: Seq<usize>,
    ships: Seq<Ship>,
)
    requires
        may_fail_at(g, n, fleet, 0, ships),
        fleet[0] > 0,
    ensures
        fleet[0] > n,
{
    if fleet[0] <= n {
        assert forall|x: int, y: int| g.in_bounds(x, y) implies #[trigger] g.cell(x, y)
            == CellType::Empty by {
            if g.cell(x, y) == CellType::Occupied {
                let i = choose|i: int| 0 <= i < ships.len() && (#[trigger] ships[i]).covers(x, y);
                assert(fleet.subrange(0, 0).len() == 0);
            }
        }
        assert forall|h: bool| #[trigger] g.has_origin(ShipShape::spec_oriented(h, fleet[0])) by {
            let ship = Ship { x: 0, y: 0, shape: ShipShape::spec_oriented(h, fleet[0]) };
            ship.lemma_cell_linear(fleet[0] - 1);
            assert(ship.fits(n as int));
            ship.lemma_cells_in_bounds(n as int);
            assert(g.can_place(ship));
        }
        assert(g.has_origin(ShipShape::spec_oriented(true, fleet[0])));
        assert(g.has_origin(ShipShape::spec_oriented(false, fleet[0])));
    }
}

/// Placing a legal ship on a layout gives a layout with one more ship.
pub proof fn lemma_layout_extend(
    before: Field,
    after: Field,
    fleet: Seq<usize>,
    ships: Seq<Ship>,
    ship: Ship,
)
    requires
        before.wf(),
        before.is_layout(fleet, ships),
        ship.shape.wf(),
        before.can_place(ship),
        before.stamped(ship, after),
    ensures
        after.is_layout(fleet.push(ship.shape.size), ships.push(ship)),
{
    let fleet2 = fleet.push(ship.shape.size);
    let ships2 = ships.push(ship);
    let n = before.n as int;
    ship.lemma_cells_in_bounds(n);
    // A cell of an earlier ship is never next to a cell of the new one.
    assert forall|i: int, k: int, kk: int|
        0 <= i < ships.len() && 0 <= k < ships[i].shape.size && 0 <= kk < ship.shape.size
            implies !near(
        #[trigger] ships[i].cell_x(k),
        ships[i].cell_y(k),
        #[trigger] ship.cell_x(kk),
        ship.cell_y(kk),
    ) by {
        let s = ships[i];
        s.lemma_cells_in_bounds(n);
        let (x, y) = (s.cell_x(k), s.cell_y(k));
        assert(s.covers(x, y));
        assert(before.cell(x, y) == CellType::Occupied);
        if near(x, y, ship.cell_x(kk), ship.cell_y(kk)) {
            assert(before.clear_around(ship.cell_x(kk), ship.cell_y(kk)));
        }
    }
    assert forall|i: int| 0 <= i < ships2.len() implies {
        &&& (#[trigger] ships2[i]).shape.wf()
        &&& ships2[i].shape.size == fleet2[i]
        &&& ships2[i].fits(after.n as int)
        &&& after.apart(ships2[i])
    } by {
        let s = ships2[i];
        assert forall|k: int, x: int, y: int|
            #![trigger after.cell(x, y), s.cell_x(k)]
            0 <= k < s.shape.size && after.in_bounds(x, y) && near(x, y, s.cell_x(k), s.cell_y(k))
                && !s.covers(x, y) implies after.cell(x, y) != CellType::Occupied by {
            if i < ships.len() {
                assert(before.apart(ships[i]));
                assert(before.cell(x, y) != CellType::Occupied);
                if ship.covers(x, y) {
                    let kk = choose|kk: int|
                        0 <= kk < ship.shape.size && #[trigger] ship.cell_x(kk) == x
                            && ship.cell_y(kk) == y;
                    assert(!near(s.cell_x(k), s.cell_y(k), ship.cell_x(kk), ship.cell_y(kk)));
                }
            } else {
                assert(s == ship);
                assert(before.clear_around(ship.cell_x(k), ship.cell_y(k)));
            }
        }
    }
    assert forall|x: int, y: int| after.in_bounds(x, y) implies (#[trigger] after.cell(x, y)
        == CellType::Occupied <==> exists|i: int|
        0 <= i < ships2.len() && (#[trigger] ships2[i]).covers(x, y)) by {
        if ship.covers(x, y) {
            assert(ships2[ships.len() as int] == ship);
        } else {
            if before.cell(x, y) == CellType::Occupied {
                let i = choose|i: int| 0 <= i < ships.len() && (#[trigger] ships[i]).covers(x, y);
                assert(ships2[i] == ships[i]);
            }
            if exists|i: int| 0 <= i < ships2.len() && (#[trigger] ships2[i]).covers(x, y) {
                let i = choose|i: int| 0 <= i < ships2.len() && (#[trigger] ships2[i]).covers(x, y);
                assert(ships2[i] == ships[i]);
            }
        }
    }
    assert forall|i: int, j: int, x: int, y: int|
        0 <= i < j < ships2.len() implies !(#[trigger] ships2[i].covers(x, y)
        && #[trigger] ships2[j].covers(x, y)) by {
        if j == ships.len() && ships2[i].covers(x, y) && ship.covers(x, y) {
            let s = ships[i];
            let k = choose|k: int| 0 <= k < s.shape.size && #[trigger] s.cell_x(k) == x && s.cell_y(k) == y;
            let kk = choose|kk: int|
                0 <= kk < ship.shape.size && #[trigger] ship.cell_x(kk) == x && ship.cell_y(kk) == y;
            assert(!near(s.cell_x(k), s.cell_y(k), ship.cell_x(kk), ship.cell_y(kk)));
        }
    }
}


/// Every cell of every ship of a layout lies on the grid.
pub proof fn lemma_ship_cells_on_grid(f: Field, fleet: Seq<usize>, ships: Seq<Ship>)
    requires
        f.is_layout(fleet, ships),
    ensures
        forall|i: int, x: int, y: int|
            0 <= i < ships.len() && #[trigger] ships[i].covers(x, y) ==> f.in_bounds(x, y),
{
    assert forall|i: int, x: int, y: int|
        0 <= i < ships.len() && #[trigger] ships[i].covers(x, y) implies f.in_bounds(x, y) by {
        ships[i].lemma_cells_in_bounds(f.n as int);
    }
}

/// In a layout, an `Occupied` cell next to a cell of a ship, diagonals
/// included, belongs to that same ship and to no other.
pub proof fn lemma_no_touching(
    f: Field,
    fleet: Seq<usize>,
    ships: Seq<Ship>,
    i: int,
    x1: int,
    y1: int,
    x2: int,
    y2: int,
)
    requires
        f.is_layout(fleet, ships),
        0 <= i < ships.len(),
        ships[i].covers(x1, y1),
        f.in_bounds(x2, y2),
        near(x1, y1, x2, y2),
        f.cell(x2, y2) == CellType::Occupied,
    ensures
        ships[i].covers(x2, y2),
        forall|j: int| 0 <= j < ships.len() && j != i ==> !(#[trigger] ships[j]).covers(x2, y2),
{
    let s = ships[i];
    let k = choose|k: int| 0 <= k < s.shape.size && #[trigger] s.cell_x(k) == x1 && s.cell_y(k) == y1;
    assert(f.apart(s));
    assert(near(x2, y2, s.cell_x(k), s.cell_y(k)));
    assert forall|j: int| 0 <= j < ships.len() && j != i implies !(#[trigger] ships[j]).covers(
        x2,
        y2,
    ) by {
        if j < i {
            assert(!(ships[j].covers(x2, y2) && ships[i].covers(x2, y2)));
        } else {
            assert(!(ships[i].covers(x2, y2) && ships[j].covers(x2, y2)));
        }
    }
}

/// Each ship of a layout is a maximal straight run: the cells just before
/// its first cell and just after its last, along its orientation, are not
/// `Occupied` where they lie on the grid.
pub proof fn lemma_ships_are_maximal_runs(f: Field, fleet: Seq<usize>, ships: Seq<Ship>)
    requires
        f.is_layout(fleet, ships),
    ensures
        forall|i: int|
            0 <= i < ships.len() ==> {
                let s = #[trigger] ships[i];
                &&& f.in_bounds(s.cell_x(-1), s.cell_y(-1)) ==> f.cell(s.cell_x(-1), s.cell_y(-1))
                    != CellType::Occupied
                &&& f.in_bounds(s.cell_x(s.shape.size as int), s.cell_y(s.shape.size as int))
                    ==> f.cell(s.cell_x(s.shape.size as int), s.cell_y(s.shape.size as int))
                    != CellType::Occupied
            },
{
    assert forall|i: int| 0 <= i < ships.len() implies {
        let s = #[trigger] ships[i];
        &&& f.in_bounds(s.cell_x(-1), s.cell_y(-1)) ==> f.cell(s.cell_x(-1), s.cell_y(-1))
            != CellType::Occupied
        &&& f.in_bounds(s.cell_x(s.shape.size as int), s.cell_y(s.shape.size as int)) ==> f.cell(
            s.cell_x(s.shape.size as int),
            s.cell_y(s.shape.size as int),
        ) != CellType::Occupied
    } by {
        let s = ships[i];
        let last = s.shape.size - 1;
        assert(f.apart(s));
        s.lemma_cell_linear(-1);
        s.lemma_cell_linear(0);
        s.lemma_cell_linear(last);
        s.lemma_cell_linear(s.shape.size as int);
        assert forall|k: int| 0 <= k < s.shape.size implies !(#[trigger] s.cell_x(k) == s.cell_x(-1)
            && s.cell_y(k) == s.cell_y(-1)) && !(s.cell_x(k) == s.cell_x(s.shape.size as int)
            && s.cell_y(k) == s.cell_y(s.shape.size as int)) by {
            s.lemma_cell_linear(k);
        }
        assert(near(s.cell_x(-1), s.cell_y(-1), s.cell_x(0), s.cell_y(0)));
        assert(near(
            s.cell_x(s.shape.size as int),
            s.cell_y(s.shape.size as int),
            s.cell_x(last),
            s.cell_y(last),
        ));
    }
}

/// On a grid of side two every pair of cells touches, so a layout there
/// holds at most one ship.
pub proof fn lemma_two_by_two_holds_one_ship(f: Field, fleet: Seq<usize>, ships: Seq<Ship>)
    requires
        f.n == 2,
        f.is_layout(fleet, ships),
    ensures
        ships.len() <= 1,
{
    if ships.len() >= 2 {
        let (a, b) = (ships[0], ships[1]);
        lemma_ship_cells_on_grid(f, fleet, ships);
        assert(a.covers(a.cell_x(0), a.cell_y(0)));
        assert(b.covers(b.cell_x(0), b.cell_y(0)));
        assert(f.cell(b.cell_x(0), b.cell_y(0)) == CellType::Occupied);
        lemma_no_touching(f, fleet, ships, 0, a.cell_x(0), a.cell_y(0), b.cell_x(0), b.cell_y(0));
    }
}

/// A finished generation on a grid of side two placed at most one ship.
pub proof fn lemma_two_by_two_generation(f: Field, fleet: Seq<usize>)
    requires
        f.is_generated(2, fleet),
    ensures
        fleet.len() <= 1,
{
    let ships = choose|ships: Seq<Ship>| f.is_layout(fleet, ships);
    lemma_two_by_two_holds_one_ship(f, fleet, ships);
}

/// On a generated grid, an `Occupied` cell and any `Occupied` cells next to
/// it, diagonals included, all lie on one row or all on one column: no two
/// ships touch, not even diagonally, and no occupied cell has both an occupied
/// horizontal neighbour and an occupied vertical one.
pub proof fn lemma_touching_cells_in_line(
    f: Field,
    n: usize,
    fleet: Seq<usize>,
    x: int,
    y: int,
    ax: int,
    ay: int,
    bx: int,
    by: int,
)
    requires
        f.is_generated(n, fleet),
        f.in_bounds(x, y),
        f.in_bounds(ax, ay),
        f.in_bounds(bx, by),
        near(ax, ay, x, y),
        near(bx, by, x, y),
        f.cell(x, y) == CellType::Occupied,
        f.cell(ax, ay) == CellType::Occupied,
        f.cell(bx, by) == CellType::Occupied,
    ensures
        (ax == x && bx == x) || (ay == y && by == y),
{
    let ships = choose|ships: Seq<Ship>| f.is_layout(fleet, ships);
    assert(f.cell(x, y) == CellType::Occupied);
    let i = choose|i: int| 0 <= i < ships.len() && (#[trigger] ships[i]).covers(x, y);
    let s = ships[i];
    lemma_no_touching(f, fleet, ships, i, x, y, ax, ay);
    lemma_no_touching(f, fleet, ships, i, x, y, bx, by);
    let k = choose|k: int| 0 <= k < s.shape.size && #[trigger] s.cell_x(k) == x && s.cell_y(k) == y;
    let ka = choose|k: int| 0 <= k < s.shape.size && #[trigger] s.cell_x(k) == ax && s.cell_y(k) == ay;
    let kb = choose|k: int| 0 <= k < s.shape.size && #[trigger] s.cell_x(k) == bx && s.cell_y(k) == by;
    s.lemma_cell_linear(k);
    s.lemma_cell_linear(ka);
    s.lemma_cell_linear(kb);
}

/// Side of the standard grid.
pub const FIELD_SIZE: usize = 10;

impl Field {
    /// Lays out `fleet` on a fresh grid of side `n`, ship by ship in the given
    /// order, with no backtracking.
    ///
    /// Fails with `InvalidConfig`, before any placement, exactly when `n` is
    /// zero or a ship length is zero. Otherwise fails with `GenerationFailed`
    /// when the orientation drawn for some ship leaves it no legal origin; a
    /// grid is returned only when every ship was placed.
    pub fn generate_with(n: usize, fleet: &Vec<usize>, rng: &mut SmallRng) -> (r: Result<
        Field,
        GenerationError,
    >)
        requires
            n * n <= usize::MAX,
        ensures
            (r == Err::<Field, GenerationError>(GenerationError::InvalidConfig)) <==> (n == 0
                || exists|i: int| 0 <= i < fleet@.len() && #[trigger] fleet@[i] == 0),
            r matches Ok(f) ==> f.is_generated(n, fleet@),
            r == Err::<Field, GenerationError>(GenerationError::GenerationFailed) ==> exists|
                i: int,
                g: Field,
                ships: Seq<Ship>,
            | may_fail_at(g, n, fleet@, i, ships),
            n > 0 && fleet@.len() == 0 ==> r is Ok,
            r != Err::<Field, GenerationError>(GenerationError::EntropyUnavailable),
    {
        if n == 0 {
            return Err(GenerationError::InvalidConfig);
        }
        let mut i: usize = 0;
        while i < fleet.len()
            invariant
                i <= fleet@.len(),
                forall|j: int| 0 <= j < i ==> #[trigger] fleet@[j] > 0,
            decreases fleet@.len() - i,
        {
            if fleet[i] == 0 {
                return Err(GenerationError::InvalidConfig);
            }
            i = i + 1;
        }
        let mut field = Field::new(n);
        let ghost mut ships: Seq<Ship> = Seq::empty();
        proof {
            assert(fleet@.subrange(0, 0) =~= Seq::<usize>::empty());
            assert(field.is_layout(fleet@.subrange(0, 0), ships));
        }
        let mut i: usize = 0;
        while i < fleet.len()
            invariant
                i <= fleet@.len(),
                forall|j: int| 0 <= j < fleet@.len() ==> #[trigger] fleet@[j] > 0,
                field.wf(),
                field.n == n,
                field.is_layout(fleet@.subrange(0, i as int), ships),
                field.free_cells_empty(),
                occupied_count(field.cells@) == fleet_total(fleet@.subrange(0, i as int)),
            decreases fleet@.len() - i,
        {
            let ghost before = field;
            match field.emplace_ships(fleet[i], rng) {
                Ok(ship) => {
                    proof {
                        lemma_layout_extend(before, field, fleet@.subrange(0, i as int), ships, ship);
                        assert(fleet@.subrange(0, i as int).push(fleet@[i as int]) =~= fleet@.subrange(
                            0,
                            i + 1,
                        ));
                        assert(fleet@.subrange(0, i + 1).drop_last() =~= fleet@.subrange(0, i as int));
                        ships = ships.push(ship);
                    }
                },
                Err(e) => {
                    assert(may_fail_at(before, n, fleet@, i as int, ships));
                    return Err(e);
                },
            }
            i = i + 1;
        }
        assert(fleet@.subrange(0, i as int) =~= fleet@);
        Ok(field)
    }

    /// A standard board: one ship of four cells, two of three, three of two
    /// and four of one on a grid of side ten, drawn from a generator seeded
    /// by the operating system; `EntropyUnavailable` when it cannot be seeded.
    pub fn generate() -> (r: Result<Field, GenerationError>)
        ensures
            r matches Ok(f) ==> f.is_generated(FIELD_SIZE, standard_fleet()),
            r != Err::<Field, GenerationError>(GenerationError::InvalidConfig),
            r == Err::<Field, GenerationError>(GenerationError::GenerationFailed) ==> exists|
                i: int,
                g: Field,
                ships: Seq<Ship>,
            | may_fail_at(g, FIELD_SIZE, standard_fleet(), i, ships),
    {
        match fresh_rng() {
            None => Err(GenerationError::EntropyUnavailable),
            Some(mut rng) => {
                let fleet = vec![4, 3, 3, 2, 2, 2, 1, 1, 1, 1];
                assert(fleet@ == standard_fleet());
                Field::generate_with(FIELD_SIZE, &fleet, &mut rng)
            },
        }
    }
}

/// Ship lengths of the standard fleet, in placement order.
pub open spec fn standard_fleet() -> Seq<usize> {
    seq![4, 3, 3, 2, 2, 2, 1, 1, 1, 1]
}

} // verus!
