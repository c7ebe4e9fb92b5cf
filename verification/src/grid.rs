//! The cell-state matrix and its coordinate utilities.

use vstd::prelude::*;

verus! {

/// A coordinate pair `(x, y)`: column first, then row.
pub type Position = (usize, usize);

/// What a single cell of the grid currently holds.
#[derive(Clone, Copy, PartialEq, Eq, Debug, Structural)]
pub enum CellState {
    Wall,
    Open,
    Visited,
    Dead,
}

/// The only failure a grid access can report.
#[derive(Clone, Copy, PartialEq, Eq, Debug, Structural)]
pub enum GridError {
    OutOfBounds,
}

/// The four axis-aligned moves.
#[derive(Clone, Copy, PartialEq, Eq, Debug, Structural)]
pub enum Direction {
    Up,
    Down,
    Right,
    Left,
}

/// The mathematical model of a grid: `cells[y][x]` is the state at `(x, y)`.
pub type Cells = Seq<Seq<CellState>>;

/// Every row is as long as the grid is high.
pub open spec fn square(cells: Cells) -> bool {
    forall|y: int| 0 <= y < cells.len() ==> (#[trigger] cells[y]).len() == cells.len()
}

/// `p` is a cell of the grid.
pub open spec fn in_bounds(cells: Cells, p: Position) -> bool {
    p.0 < cells.len() && p.1 < cells.len()
}

/// The state of the cell `p`.
pub open spec fn state_at(cells: Cells, p: Position) -> CellState {
    cells[p.1 as int][p.0 as int]
}

/// `p` is a cell of the grid, and it is open.
pub open spec fn open_at(cells: Cells, p: Position) -> bool {
    in_bounds(cells, p) && state_at(cells, p) == CellState::Open
}

/// Where every search begins.
pub open spec fn start_cell() -> Position {
    (1, 1)
}

/// The cell diagonally opposite the start, one step inside the outer ring.
pub open spec fn goal_cell(cells: Cells) -> Position {
    ((cells.len() - 2) as usize, (cells.len() - 2) as usize)
}

/// `cells` with the state at `p` replaced by `s`.
pub open spec fn with_state(cells: Cells, p: Position, s: CellState) -> Cells {
    cells.update(p.1 as int, cells[p.1 as int].update(p.0 as int, s))
}

/// The coordinates one step from `p` in direction `d`; they may leave the grid.
pub open spec fn beside(p: Position, d: Direction) -> (int, int) {
    match d {
        Direction::Up => (p.0 as int, p.1 - 1),
        Direction::Right => (p.0 + 1, p.1 as int),
        Direction::Down => (p.0 as int, p.1 + 1),
        Direction::Left => (p.0 - 1, p.1 as int),
    }
}

/// One step from `p` in direction `d` stays on the grid.
pub open spec fn has_neighbor(cells: Cells, p: Position, d: Direction) -> bool {
    0 <= beside(p, d).0 < cells.len() && 0 <= beside(p, d).1 < cells.len()
}

/// The cell one step from `p` in direction `d`, where `has_neighbor` holds.
pub open spec fn neighbor_of(p: Position, d: Direction) -> Position {
    (beside(p, d).0 as usize, beside(p, d).1 as usize)
}

/// The canonical order of the four directions: Up, Right, Down, Left.
pub open spec fn canonical_turn(i: int) -> Direction {
    if i == 0 {
        Direction::Up
    } else if i == 1 {
        Direction::Right
    } else if i == 2 {
        Direction::Down
    } else {
        Direction::Left
    }
}

/// The in-bounds neighbours of `p` among the first `turns` directions of the canonical
/// order, in that order.
pub open spec fn neighbors_upto(cells: Cells, p: Position, turns: int) -> Seq<Position>
    decreases turns,
{
    if turns <= 0 {
        Seq::empty()
    } else if has_neighbor(cells, p, canonical_turn(turns - 1)) {
        neighbors_upto(cells, p, turns - 1).push(neighbor_of(p, canonical_turn(turns - 1)))
    } else {
        neighbors_upto(cells, p, turns - 1)
    }
}

/// What an update of one in-bounds cell changes, and what it leaves alone.
pub proof fn lemma_with_state(cells: Cells, p: Position, s: CellState)
    requires
        square(cells),
        in_bounds(cells, p),
    ensures
        with_state(cells, p, s).len() == cells.len(),
        square(with_state(cells, p, s)),
        state_at(with_state(cells, p, s), p) == s,
        forall|q: Position|
            in_bounds(cells, q) && q != p ==> #[trigger] state_at(with_state(cells, p, s), q)
                == state_at(cells, q),
{
}

/// Writing the state that a cell already holds changes nothing.
pub proof fn lemma_with_same_state(cells: Cells, p: Position)
    requires
        square(cells),
        in_bounds(cells, p),
    ensures
        with_state(cells, p, state_at(cells, p)) == cells,
{
    assert(cells[p.1 as int].update(p.0 as int, state_at(cells, p)) =~= cells[p.1 as int]);
}

/// How many cells of one row hold state `s`.
pub open spec fn row_count(row: Seq<CellState>, s: CellState) -> nat
    decreases row.len(),
{
    if row.len() == 0 {
        0
    } else {
        row_count(row.drop_last(), s) + if row.last() == s {
            1nat
        } else {
            0nat
        }
    }
}

/// How many cells of the grid hold state `s`.
pub open spec fn count_of(cells: Cells, s: CellState) -> nat
    decreases cells.len(),
{
    if cells.len() == 0 {
        0
    } else {
        count_of(cells.drop_last(), s) + row_count(cells.last(), s)
    }
}

/// One for a match, zero otherwise.
pub open spec fn tally(held: CellState, s: CellState) -> int {
    if held == s {
        1
    } else {
        0
    }
}

/// An update of one cell of a row moves one unit of count from its old state to the new.
pub proof fn lemma_row_count_update(row: Seq<CellState>, i: int, v: CellState, s: CellState)
    requires
        0 <= i < row.len(),
    ensures
        row_count(row.update(i, v), s) == row_count(row, s) - tally(row[i], s) + tally(v, s),
    decreases row.len(),
{
    let after = row.update(i, v);
    if i == row.len() - 1 {
        assert(after.drop_last() =~= row.drop_last());
    } else {
        assert(after.drop_last() =~= row.drop_last().update(i, v));
        lemma_row_count_update(row.drop_last(), i, v, s);
    }
}

/// Replacing one row replaces its share of the count.
pub proof fn lemma_rows_count_update(cells: Cells, y: int, row: Seq<CellState>, s: CellState)
    requires
        0 <= y < cells.len(),
    ensures
        count_of(cells.update(y, row), s) == count_of(cells, s) - row_count(cells[y], s)
            + row_count(row, s),
    decreases cells.len(),
{
    let after = cells.update(y, row);
    if y == cells.len() - 1 {
        assert(after.drop_last() =~= cells.drop_last());
    } else {
        assert(after.drop_last() =~= cells.drop_last().update(y, row));
        lemma_rows_count_update(cells.drop_last(), y, row, s);
    }
}

/// No state is held by more cells of a row than the row has.
pub proof fn lemma_row_count_bound(row: Seq<CellState>, s: CellState)
    ensures
        row_count(row, s) <= row.len(),
    decreases row.len(),
{
    if row.len() > 0 {
        lemma_row_count_bound(row.drop_last(), s);
    }
}

/// No state is held by more cells than there are.
pub proof fn lemma_count_bound(cells: Cells, width: nat, s: CellState)
    requires
        forall|y: int| 0 <= y < cells.len() ==> (#[trigger] cells[y]).len() == width,
    ensures
        count_of(cells, s) <= cells.len() * width,
    decreases cells.len(),
{
    if cells.len() > 0 {
        lemma_count_bound(cells.drop_last(), width, s);
        lemma_row_count_bound(cells.last(), s);
        assert((cells.len() - 1) * width + width == cells.len() * width) by (nonlinear_arith);
    }
}

/// An update moves one unit of count from the old state of the cell to the new one.
pub proof fn lemma_count_update(cells: Cells, p: Position, v: CellState, s: CellState)
    requires
        square(cells),
        in_bounds(cells, p),
    ensures
        count_of(with_state(cells, p, v), s) == count_of(cells, s) - tally(state_at(cells, p), s)
            + tally(v, s),
{
    lemma_row_count_update(cells[p.1 as int], p.0 as int, v, s);
    lemma_rows_count_update(cells, p.1 as int, cells[p.1 as int].update(p.0 as int, v), s);
}

/// A square grid of cells. The side is at least 3, so that the start `(1, 1)` and the goal
/// one step inside the opposite corner are cells of it.
pub struct Grid {
    size: usize,
    cells: Vec<Vec<CellState>>,
}

impl View for Grid {
    type V = Seq<Seq<CellState>>;

    closed spec fn view(&self) -> Seq<Seq<CellState>> {
        Seq::new(self.cells@.len(), |y: int| self.cells@[y]@)
    }
}

impl Grid {
    /// The grid is square, its side is at least 3, and the number of its cells fits in a
    /// `usize`.
    pub closed spec fn wf(&self) -> bool {
        &&& self.size >= 3
        &&& self.size * self.size < usize::MAX
        &&& self.cells@.len() == self.size
        &&& forall|y: int| 0 <= y < self.size ==> (#[trigger] self.cells@[y])@.len() == self.size
    }

    /// What a well-formed grid says of its model.
    pub proof fn lemma_wf(&self)
        requires
            self.wf(),
        ensures
            square(self@),
            3 <= self@.len() <= usize::MAX,
            self@.len() * self@.len() < usize::MAX,
    {
    }

    /// A grid of side `size` with every cell a wall. The number of its cells has to fit
    /// in a `usize`.
    pub fn new(size: usize) -> (g: Grid)
        requires
            size >= 3,
            size * size < usize::MAX,
        ensures
            g.wf(),
            g@.len() == size,
            forall|p: Position| in_bounds(g@, p) ==> #[trigger] state_at(g@, p) == CellState::Wall,
    {
        let mut cells: Vec<Vec<CellState>> = Vec::new();
        let mut y: usize = 0;
        while y < size
            invariant
                y <= size,
                cells@.len() == y,
                forall|j: int| 0 <= j < y ==> (#[trigger] cells@[j])@.len() == size,
                forall|j: int, i: int|
                    0 <= j < y && 0 <= i < size ==> (#[trigger] cells@[j]@[i]) == CellState::Wall,
            decreases size - y,
        {
            let mut row: Vec<CellState> = Vec::new();
            let mut x: usize = 0;
            while x < size
                invariant
                    x <= size,
                    row@.len() == x,
                    forall|i: int| 0 <= i < x ==> (#[trigger] row@[i]) == CellState::Wall,
                decreases size - x,
            {
                row.push(CellState::Wall);
                x += 1;
            }
            cells.push(row);
            y += 1;
        }
        Grid { size, cells }
    }

    /// The state of an in-bounds cell.
    pub(crate) fn peek(&self, p: Position) -> (s: CellState)
        requires
            self.wf(),
            in_bounds(self@, p),
        ensures
            s == state_at(self@, p),
    {
        self.cells[p.1][p.0]
    }

    /// Overwrites the state of an in-bounds cell.
    pub(crate) fn mark(&mut self, p: Position, state: CellState)
        requires
            old(self).wf(),
            in_bounds(old(self)@, p),
        ensures
            final(self).wf(),
            final(self)@ == with_state(old(self)@, p, state),
    {
        self.cells[p.1][p.0] = state;
    }

    /// The side of the grid.
    pub fn size(&self) -> (n: usize)
        requires
            self.wf(),
        ensures
            n == self@.len(),
    {
        self.size
    }

    /// The start cell, `(1, 1)`.
    pub fn start(&self) -> (p: Position)
        ensures
            p == start_cell(),
    {
        (1, 1)
    }

    /// The goal cell, one step inside the corner opposite the start.
    pub fn goal(&self) -> (p: Position)
        requires
            self.wf(),
        ensures
            p == goal_cell(self@),
            in_bounds(self@, p),
    {
        (self.size - 2, self.size - 2)
    }

    /// The direction at place `i` of the canonical order.
    pub fn turn(i: usize) -> (d: Direction)
        requires
            i < 4,
        ensures
            d == canonical_turn(i as int),
    {
        if i == 0 {
            Direction::Up
        } else if i == 1 {
            Direction::Right
        } else if i == 2 {
            Direction::Down
        } else {
            Direction::Left
        }
    }

    /// The cell one step from `p` in direction `d`, if that step stays on the grid.
    pub fn neighbor(&self, p: Position, d: Direction) -> (q: Option<Position>)
        requires
            self.wf(),
        ensures
            q is Some <==> has_neighbor(self@, p, d),
            q matches Some(c) ==> c == neighbor_of(p, d) && in_bounds(self@, c),
    {
        let n = self.size;
        match d {
            Direction::Up => {
                if p.1 >= 1 && p.1 - 1 < n && p.0 < n {
                    Some((p.0, p.1 - 1))
                } else {
                    None
                }
            },
            Direction::Right => {
                if p.0 < n - 1 && p.1 < n {
                    Some((p.0 + 1, p.1))
                } else {
                    None
                }
            },
            Direction::Down => {
                if p.1 < n - 1 && p.0 < n {
                    Some((p.0, p.1 + 1))
                } else {
                    None
                }
            },
            Direction::Left => {
                if p.0 >= 1 && p.0 - 1 < n && p.1 < n {
                    Some((p.0 - 1, p.1))
                } else {
                    None
                }
            },
        }
    }

    /// The in-bounds cells adjacent to `(x, y)`, in the canonical order Up, Right, Down,
    /// Left.
    pub fn neighbors4(&self, x: usize, y: usize) -> (found: Vec<Position>)
        requires
            self.wf(),
        ensures
            found@ == neighbors_upto(self@, (x, y), 4),
    {
        let mut found: Vec<Position> = Vec::new();
        let mut i: usize = 0;
        while i < 4
            invariant
                i <= 4,
                self.wf(),
                found@ == neighbors_upto(self@, (x, y), i as int),
            decreases 4 - i,
        {
            match self.neighbor((x, y), Grid::turn(i)) {
                Some(c) => {
                    found.push(c);
                },
                None => {},
            }
            i += 1;
        }
        found
    }

    /// The state of the cell `(x, y)`, or `OutOfBounds` where `x` or `y` is not less than
    /// the side of the grid.
    pub fn get(&self, x: usize, y: usize) -> (r: Result<CellState, GridError>)
        requires
            self.wf(),
        ensures
            in_bounds(self@, (x, y)) ==> r == Ok::<CellState, GridError>(state_at(self@, (x, y))),
            !in_bounds(self@, (x, y)) ==> r == Err::<CellState, GridError>(GridError::OutOfBounds),
    {
        if x < self.size && y < self.size {
            Ok(self.peek((x, y)))
        } else {
            Err(GridError::OutOfBounds)
        }
    }

    /// Writes `state` to the cell `(x, y)`, whatever it held; or changes nothing and says
    /// `OutOfBounds` where `x` or `y` is not less than the side of the grid.
    pub fn set(&mut self, x: usize, y: usize, state: CellState) -> (r: Result<(), GridError>)
        requires
            old(self).wf(),
        ensures
            final(self).wf(),
            in_bounds(old(self)@, (x, y)) ==> r.is_ok() && final(self)@ == with_state(
                old(self)@,
                (x, y),
                state,
            ),
            !in_bounds(old(self)@, (x, y)) ==> r == Err::<(), GridError>(GridError::OutOfBounds)
                && final(self)@ == old(self)@,
    {
        if x < self.size && y < self.size {
            self.mark((x, y), state);
            Ok(())
        } else {
            Err(GridError::OutOfBounds)
        }
    }
}

} // verus!
