use vstd::prelude::*;

verus! {

/// The state of one cell of the grid.
#[derive(Clone, Copy, Debug, PartialEq, Eq, Structural)]
pub enum CellType {
    Empty,
    /// Never produced by generation; kept for collaborators that mark cells.
    Blocked,
    Occupied,
}

impl CellType {
    /// The character that stands for this state in a rendered grid.
    pub open spec fn spec_symbol(&self) -> char {
        match *self {
            CellType::Empty => '.',
            CellType::Blocked => 'o',
            CellType::Occupied => 'X',
        }
    }

    /// The character that stands for this state in a rendered grid.
    pub fn symbol(&self) -> (r: char)
        ensures
            r == self.spec_symbol(),
    {
        match self {
            CellType::Empty => '.',
            CellType::Blocked => 'o',
            CellType::Occupied => 'X',
        }
    }
}

/// Number of `Occupied` entries in a sequence of cells.
pub open spec fn occupied_count(s: Seq<CellType>) -> nat
    decreases s.len(),
{
    if s.len() == 0 {
        0
    } else {
        occupied_count(s.drop_last()) + if s.last() == CellType::Occupied { 1nat } else { 0nat }
    }
}

/// Turning one non-occupied cell into an occupied one adds one to the count.
pub proof fn lemma_occupy_one(s: Seq<CellType>, i: int)
    requires
        0 <= i < s.len(),
        s[i] != CellType::Occupied,
    ensures
        occupied_count(s.update(i, CellType::Occupied)) == occupied_count(s) + 1,
    decreases s.len(),
{
    let t = s.update(i, CellType::Occupied);
    if i == s.len() - 1 {
        assert(t.drop_last() =~= s.drop_last());
    } else {
        assert(t.drop_last() =~= s.drop_last().update(i, CellType::Occupied));
        lemma_occupy_one(s.drop_last(), i);
    }
}

/// Row-major position of cell `(x, y)` on an `n` by `n` grid lies inside it.
pub proof fn lemma_index_in_range(x: int, y: int, n: int)
    requires
        0 <= x < n,
        0 <= y < n,
    ensures
        0 <= y * n,
        0 <= x + y * n < n * n,
{
    assert(0 <= y * n <= (n - 1) * n) by (nonlinear_arith)
        requires
            0 <= y < n,
    ;
    assert((n - 1) * n + n == n * n) by (nonlinear_arith);
}

/// Distinct cells have distinct row-major positions.
pub proof fn lemma_index_injective(x1: int, y1: int, x2: int, y2: int, n: int)
    requires
        0 <= x1 < n,
        0 <= y1 < n,
        0 <= x2 < n,
        0 <= y2 < n,
        x1 + y1 * n == x2 + y2 * n,
    ensures
        x1 == x2,
        y1 == y2,
{
    if y1 < y2 {
        assert(y1 * n + n <= y2 * n) by (nonlinear_arith)
            requires
                y1 < y2,
                0 < n,
        ;
    } else if y2 < y1 {
        assert(y2 * n + n <= y1 * n) by (nonlinear_arith)
            requires
                y2 < y1,
                0 < n,
        ;
    }
}

/// An `n` by `n` board of cells, stored row by row.
#[derive(Clone, Debug, PartialEq, Eq)]
pub struct Field {
    pub n: usize,
    pub cells: Vec<CellType>,
}

impl Field {
    pub open spec fn wf(&self) -> bool {
        &&& self.n > 0
        &&& self.n * self.n <= usize::MAX
        &&& self.cells@.len() == self.n * self.n
    }

    pub open spec fn in_bounds(&self, x: int, y: int) -> bool {
        0 <= x < self.n && 0 <= y < self.n
    }

    /// The state of cell `(x, y)`, column `x` of row `y`.
    pub open spec fn cell(&self, x: int, y: int) -> CellType {
        self.cells@[x + y * self.n]
    }

    /// A grid of side `n` with every cell `Empty`.
    pub fn new(n: usize) -> (r: Field)
        requires
            n > 0,
            n * n <= usize::MAX,
        ensures
            r.wf(),
            r.n == n,
            forall|x: int, y: int| r.in_bounds(x, y) ==> #[trigger] r.cell(x, y) == CellType::Empty,
            occupied_count(r.cells@) == 0,
    {
        let total: usize = n * n;
        let mut cells: Vec<CellType> = Vec::new();
        let mut i: usize = 0;
        while i < total
            invariant
                i <= total,
                total == n * n,
                cells@.len() == i,
                forall|j: int| 0 <= j < i ==> cells@[j] == CellType::Empty,
                occupied_count(cells@) == 0,
            decreases total - i,
        {
            let ghost before = cells@;
            cells.push(CellType::Empty);
            assert(cells@.drop_last() =~= before);
            i = i + 1;
        }
        let r = Field { n, cells };
        assert forall|x: int, y: int| r.in_bounds(x, y) implies #[trigger] r.cell(x, y)
            == CellType::Empty by {
            lemma_index_in_range(x, y, n as int);
        }
        r
    }

    /// The state of cell `(x, y)`.
    pub fn get(&self, x: usize, y: usize) -> (r: CellType)
        requires
            self.wf(),
            self.in_bounds(x as int, y as int),
        ensures
            r == self.cell(x as int, y as int),
    {
        proof {
            lemma_index_in_range(x as int, y as int, self.n as int);
        }
        self.cells[x + y * self.n]
    }

    /// Sets cell `(x, y)` to `c`; every other cell keeps its state.
    pub fn set(&mut self, x: usize, y: usize, c: CellType)
        requires
            old(self).wf(),
            old(self).in_bounds(x as int, y as int),
        ensures
            final(self).wf(),
            final(self).n == old(self).n,
            final(self).cells@ == old(self).cells@.update(x + y * old(self).n, c),
            forall|a: int, b: int|
                final(self).in_bounds(a, b) ==> #[trigger] final(self).cell(a, b) == if a == x && b
                    == y {
                    c
                } else {
                    old(self).cell(a, b)
                },
    {
        proof {
            lemma_index_in_range(x as int, y as int, self.n as int);
        }
        let i = x + y * self.n;
        self.cells.set(i, c);
        proof {
            assert forall|a: int, b: int| self.in_bounds(a, b) implies #[trigger] self.cell(a, b)
                == if a == x && b == y {
                c
            } else {
                old(self).cell(a, b)
            } by {
                lemma_index_in_range(a, b, self.n as int);
                if a + b * self.n == i {
                    lemma_index_injective(a, b, x as int, y as int, self.n as int);
                }
            }
        }
    }

    /// Number of `Occupied` cells on the grid.
    pub fn count_occupied(&self) -> (r: usize)
        ensures
            r == occupied_count(self.cells@),
    {
        let mut count: usize = 0;
        let mut i: usize = 0;
        while i < self.cells.len()
            invariant
                i <= self.cells@.len(),
                count == occupied_count(self.cells@.subrange(0, i as int)),
                count <= i,
            decreases self.cells@.len() - i,
        {
            assert(self.cells@.subrange(0, i + 1).drop_last() =~= self.cells@.subrange(0, i as int));
            if self.cells[i] == CellType::Occupied {
                count = count + 1;
            }
            i = i + 1;
        }
        assert(self.cells@.subrange(0, i as int) =~= self.cells@);
        count
    }

    /// The grid as text, one row of symbols per grid row, top row first.
    pub fn rows(&self) -> (r: Vec<Vec<char>>)
        requires
            self.wf(),
        ensures
            r@.len() == self.n,
            forall|y: int| 0 <= y < self.n ==> (#[trigger] r@[y])@.len() == self.n,
            forall|x: int, y: int|
                self.in_bounds(x, y) ==> r@[y]@[x] == (#[trigger] self.cell(x, y)).spec_symbol(),
    {
        let mut r: Vec<Vec<char>> = Vec::new();
        let mut y: usize = 0;
        while y < self.n
            invariant
                self.wf(),
                y <= self.n,
                r@.len() == y,
                forall|b: int| 0 <= b < y ==> (#[trigger] r@[b])@.len() == self.n,
                forall|a: int, b: int|
                    0 <= a < self.n && 0 <= b < y ==> r@[b]@[a] == (#[trigger] self.cell(
                        a,
                        b,
                    )).spec_symbol(),
            decreases self.n - y,
        {
            let mut row: Vec<char> = Vec::new();
            let mut x: usize = 0;
            while x < self.n
                invariant
                    self.wf(),
                    x <= self.n,
                    y < self.n,
                    row@.len() == x,
                    forall|a: int|
                        0 <= a < x ==> row@[a] == (#[trigger] self.cell(a, y as int)).spec_symbol(),
                decreases self.n - x,
            {
                row.push(self.get(x, y).symbol());
                x = x + 1;
            }
            r.push(row);
            y = y + 1;
        }
        r
    }
}

} // verus!
