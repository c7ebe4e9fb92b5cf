//! The single-agent solver: depth-first search with backtracking, one marking at a time.

use crate::grid::{canonical_turn, count_of, goal_cell, has_neighbor, in_bounds, neighbor_of};
use crate::grid::{lemma_count_update, lemma_with_state, open_at, square, state_at, with_state};
use crate::grid::{CellState, Cells, Direction, Grid, Position};
use crate::paths::{adjacent, connected, enterable, linked, route, sealed};
use crate::paths::{lemma_neighbor_adjacent, lemma_region_holds_path, lemma_toward, toward};
use crate::paths::simple_route;
use vstd::prelude::*;

verus! {

/// How far a search has come.
#[derive(Clone, Copy, PartialEq, Eq, Debug, Structural)]
pub enum SolveStatus {
    /// The trail has not reached the goal and has cells left to try.
    Searching,
    /// The trail leads from the start to the goal.
    Solved,
    /// Every cell within reach of the start has been tried: there is no way to the goal.
    Exhausted,
}

/// The status in which a finished search ends.
pub open spec fn verdict(found: bool) -> SolveStatus {
    if found {
        SolveStatus::Solved
    } else {
        SolveStatus::Exhausted
    }
}

/// A cell keeps its state, or goes from open to visited or dead.
pub open spec fn advanced(before: CellState, after: CellState) -> bool {
    after == before || (before == CellState::Open && (after == CellState::Visited || after
        == CellState::Dead))
}

/// `now` differs from `initial` only in open cells that a search has marked.
pub open spec fn marked_forward(initial: Cells, now: Cells) -> bool {
    &&& now.len() == initial.len()
    &&& square(now)
    &&& forall|p: Position|
        in_bounds(initial, p) ==> advanced(state_at(initial, p), #[trigger] state_at(now, p))
}

/// What a search from `start` has made of the grid `initial`: cells are only marked
/// forward, only cells within reach of the start are marked, the cells it has left visited
/// are those of its trail, and the trail is a simple route from the start. When the search
/// is solved, the trail ends at the goal; when it is exhausted, the trail is empty, the
/// start is not open, no walk over open cells led from the start to the goal, and every
/// cell to which one led is dead.
pub open spec fn searched(
    initial: Cells,
    now: Cells,
    start: Position,
    trail: Seq<Position>,
    status: SolveStatus,
) -> bool {
    &&& square(initial)
    &&& 3 <= initial.len() <= usize::MAX
    &&& marked_forward(initial, now)
    &&& forall|p: Position|
        in_bounds(initial, p) && #[trigger] state_at(now, p) != state_at(initial, p) ==> connected(
            initial,
            start,
            p,
        )
    &&& forall|p: Position| #[trigger]
        open_at(initial, p) ==> (state_at(now, p) == CellState::Visited <==> trail.contains(p))
    &&& match status {
        SolveStatus::Searching => {
            &&& trail.len() > 0
            &&& simple_route(initial, start, trail[trail.len() - 1], trail)
            &&& state_at(now, goal_cell(initial)) == state_at(initial, goal_cell(initial))
        },
        SolveStatus::Solved => simple_route(initial, start, goal_cell(initial), trail),
        SolveStatus::Exhausted => {
            &&& trail.len() == 0
            &&& !open_at(now, start)
            &&& !connected(initial, start, goal_cell(initial))
            &&& forall|p: Position| #[trigger]
                connected(initial, start, p) ==> state_at(now, p) == CellState::Dead
        },
    }
}

/// The open cell beside `p` that comes first in the canonical order, from place `from` of
/// that order on; `None` where there is none.
pub open spec fn way_from(cells: Cells, p: Position, from: int) -> Option<Position>
    decreases 4 - from,
{
    if from < 0 || from >= 4 {
        None
    } else if enterable(cells, p, canonical_turn(from)) {
        Some(neighbor_of(p, canonical_turn(from)))
    } else {
        way_from(cells, p, from + 1)
    }
}

/// A search between two markings: the grid, the trail, and how far the search has come.
pub struct Search {
    pub cells: Cells,
    pub path: Seq<Position>,
    pub status: SolveStatus,
}

/// The search after its first marking: the start, if it is an open cell, is visited and
/// makes the trail; if it is the goal, the search is solved. Where the start is not an open
/// cell, the search is exhausted and nothing is marked.
pub open spec fn search_begin(initial: Cells, start: Position) -> Search {
    if open_at(initial, start) {
        Search {
            cells: with_state(initial, start, CellState::Visited),
            path: seq![start],
            status: if start == goal_cell(initial) {
                SolveStatus::Solved
            } else {
                SolveStatus::Searching
            },
        }
    } else {
        Search { cells: initial, path: Seq::empty(), status: SolveStatus::Exhausted }
    }
}

/// The next marking of a search that is under way. Where an open cell lies beside the end
/// of the trail, the first in the canonical order becomes visited and the new end of the
/// trail, and if it is the goal the search is solved. Where none does, the end of the trail
/// becomes dead and leaves the trail, and if the trail is empty then, the search is
/// exhausted.
pub open spec fn search_step(s: Search) -> Search {
    let top = s.path[s.path.len() - 1];
    match way_from(s.cells, top, 0) {
        Some(c) => Search {
            cells: with_state(s.cells, c, CellState::Visited),
            path: s.path.push(c),
            status: if c == goal_cell(s.cells) {
                SolveStatus::Solved
            } else {
                SolveStatus::Searching
            },
        },
        None => Search {
            cells: with_state(s.cells, top, CellState::Dead),
            path: s.path.drop_last(),
            status: if s.path.len() == 1 {
                SolveStatus::Exhausted
            } else {
                SolveStatus::Searching
            },
        },
    }
}

/// The search after `steps` markings, or after fewer if it has come to its end before.
pub open spec fn search_run(s: Search, steps: nat) -> Search
    decreases steps,
{
    if steps == 0 || !(s.status is Searching) {
        s
    } else {
        search_run(search_step(s), (steps - 1) as nat)
    }
}

/// After `steps` markings the search from `start` has come to its end.
pub open spec fn search_over(initial: Cells, start: Position, steps: nat) -> bool {
    !(search_run(search_begin(initial, start), steps).status is Searching)
}

/// The search from `start` at its end.
pub open spec fn search_end(initial: Cells, start: Position) -> Search {
    search_run(
        search_begin(initial, start),
        choose|steps: nat| search_over(initial, start, steps),
    )
}

/// One more marking allowed is one more marking made, unless the search is over.
pub proof fn lemma_search_one_more(s: Search, steps: nat)
    ensures
        search_run(s, steps + 1) == if search_run(s, steps).status is Searching {
            search_step(search_run(s, steps))
        } else {
            search_run(s, steps)
        },
    decreases steps,
{
    if steps == 0 || !(s.status is Searching) {
        if s.status is Searching {
            assert(search_run(search_step(s), 0) == search_step(s));
        }
    } else {
        lemma_search_one_more(search_step(s), (steps - 1) as nat);
    }
}

/// A search that is over stays as it is.
pub proof fn lemma_search_rests(s: Search, steps: nat, more: nat)
    requires
        !(search_run(s, steps).status is Searching),
        more >= steps,
    ensures
        search_run(s, more) == search_run(s, steps),
    decreases steps,
{
    if steps == 0 || !(s.status is Searching) {
    } else {
        lemma_search_rests(search_step(s), (steps - 1) as nat, (more - 1) as nat);
    }
}

/// Whatever number of markings brings the search to its end, the end is the same.
pub proof fn lemma_search_end(initial: Cells, start: Position, steps: nat)
    requires
        search_over(initial, start, steps),
    ensures
        search_end(initial, start) == search_run(search_begin(initial, start), steps),
{
    let chosen = choose|steps: nat| search_over(initial, start, steps);
    let begin = search_begin(initial, start);
    if chosen >= steps {
        lemma_search_rests(begin, steps, chosen);
    } else {
        lemma_search_rests(begin, chosen, steps);
    }
}

/// Turns that lead to no open cell can be passed over in looking for the way on.
proof fn lemma_spent_way(cells: Cells, p: Position, turns: int)
    requires
        0 <= turns <= 4,
        spent(cells, p, turns),
    ensures
        way_from(cells, p, 0) == way_from(cells, p, turns),
    decreases turns,
{
    if turns > 0 {
        assert(spent(cells, p, turns - 1));
        lemma_spent_way(cells, p, turns - 1);
    }
}

/// The first `turns` directions of the canonical order lead from `p` to no open cell.
spec fn spent(cells: Cells, p: Position, turns: int) -> bool {
    forall|j: int| 0 <= j < turns ==> !enterable(cells, p, #[trigger] canonical_turn(j))
}

/// Each cell of the trail has taken at most four turns, and those it has taken lead to no
/// open cell.
spec fn frames_spent(cells: Cells, trail: Seq<Position>, tried: Seq<usize>) -> bool {
    &&& tried.len() == trail.len()
    &&& forall|i: int|
        0 <= i < trail.len() ==> (#[trigger] tried[i]) <= 4 && spent(cells, trail[i], tried[i] as int)
}

/// No open cell lies beside a cell that the search has given up.
spec fn dead_sealed(initial: Cells, cells: Cells) -> bool {
    forall|p: Position|
        open_at(initial, p) && #[trigger] state_at(cells, p) == CellState::Dead ==> sealed(cells, p)
}

/// The invariant of the search.
spec fn tracking(
    initial: Cells,
    cells: Cells,
    start: Position,
    trail: Seq<Position>,
    tried: Seq<usize>,
    status: SolveStatus,
) -> bool {
    &&& searched(initial, cells, start, trail, status)
    &&& frames_spent(cells, trail, tried)
    &&& dead_sealed(initial, cells)
}

/// Where no cell has become open, what was spent or sealed stays so.
proof fn lemma_fewer_open(cells: Cells, after: Cells)
    requires
        after.len() == cells.len(),
        forall|q: Position| #[trigger] open_at(after, q) ==> open_at(cells, q),
    ensures
        forall|p: Position, d: Direction| #[trigger]
            enterable(after, p, d) ==> enterable(cells, p, d),
        forall|p: Position, turns: int| #[trigger] spent(cells, p, turns) ==> spent(after, p, turns),
        forall|p: Position| #[trigger] sealed(cells, p) ==> sealed(after, p),
{
    assert forall|p: Position, d: Direction| #[trigger] enterable(after, p, d) implies enterable(
        cells,
        p,
        d,
    ) by {}
}

/// The invariant holds after the first marking of an open start.
proof fn lemma_begin(initial: Cells, start: Position)
    requires
        square(initial),
        3 <= initial.len() <= usize::MAX,
        open_at(initial, start),
    ensures
        tracking(
            initial,
            with_state(initial, start, CellState::Visited),
            start,
            seq![start],
            seq![0usize],
            if start == goal_cell(initial) {
                SolveStatus::Solved
            } else {
                SolveStatus::Searching
            },
        ),
        count_of(with_state(initial, start, CellState::Visited), CellState::Open) + 1 == count_of(
            initial,
            CellState::Open,
        ),
{
    let after = with_state(initial, start, CellState::Visited);
    let trail = seq![start];
    lemma_with_state(initial, start, CellState::Visited);
    lemma_count_update(initial, start, CellState::Visited, CellState::Open);
    assert(route(initial, start, start, trail));
    assert forall|p: Position| #[trigger] open_at(initial, p) implies (state_at(after, p)
        == CellState::Visited <==> trail.contains(p)) by {}
    assert forall|p: Position|
        open_at(initial, p) && #[trigger] state_at(after, p) == CellState::Dead implies sealed(
        after,
        p,
    ) by {}
}

/// The invariant holds of a search whose start is not an open cell.
proof fn lemma_never_begun(initial: Cells, start: Position)
    requires
        square(initial),
        3 <= initial.len() <= usize::MAX,
        !open_at(initial, start),
    ensures
        tracking(
            initial,
            initial,
            start,
            Seq::<Position>::empty(),
            Seq::<usize>::empty(),
            SolveStatus::Exhausted,
        ),
{
    assert forall|p: Position, path: Seq<Position>| !#[trigger] route(initial, start, p, path) by {}
}

/// Entering the first open cell beside the end of the trail keeps the invariant.
proof fn lemma_advance(
    initial: Cells,
    cells: Cells,
    start: Position,
    trail: Seq<Position>,
    tried: Seq<usize>,
    c: Position,
    turn: int,
)
    requires
        tracking(initial, cells, start, trail, tried, SolveStatus::Searching),
        1 <= turn <= 4,
        spent(cells, trail[trail.len() - 1], turn - 1),
        has_neighbor(cells, trail[trail.len() - 1], canonical_turn(turn - 1)),
        c == neighbor_of(trail[trail.len() - 1], canonical_turn(turn - 1)),
        open_at(cells, c),
    ensures
        tracking(
            initial,
            with_state(cells, c, CellState::Visited),
            start,
            trail.push(c),
            tried.update(trail.len() - 1, turn as usize).push(0usize),
            if c == goal_cell(initial) {
                SolveStatus::Solved
            } else {
                SolveStatus::Searching
            },
        ),
        count_of(with_state(cells, c, CellState::Visited), CellState::Open) + 1 == count_of(
            cells,
            CellState::Open,
        ),
{
    let after = with_state(cells, c, CellState::Visited);
    let last = trail.len() - 1;
    let top = trail[last];
    let trail2 = trail.push(c);
    let tried2 = tried.update(last, turn as usize).push(0usize);
    lemma_with_state(cells, c, CellState::Visited);
    lemma_count_update(cells, c, CellState::Visited, CellState::Open);
    lemma_neighbor_adjacent(cells, top, canonical_turn(turn - 1));
    // No cell has become open.
    assert forall|q: Position| #[trigger] open_at(after, q) implies open_at(cells, q) by {}
    lemma_fewer_open(cells, after);
    // Marks only go forward.
    assert forall|p: Position| in_bounds(initial, p) implies advanced(
        state_at(initial, p),
        #[trigger] state_at(after, p),
    ) by {}
    // The longer trail is a simple route.
    assert forall|i: int| 0 <= i < trail2.len() implies open_at(initial, #[trigger] trail2[i]) by {}
    assert forall|i: int| 0 <= i < trail2.len() - 1 implies #[trigger] linked(trail2, i) by {
        if i < last {
            assert(linked(trail, i));
        }
    }
    assert forall|i: int, j: int|
        0 <= i < trail2.len() && 0 <= j < trail2.len() && i != j implies trail2[i] != trail2[j] by {}
    assert(simple_route(initial, start, c, trail2));
    assert forall|p: Position|
        in_bounds(initial, p) && #[trigger] state_at(after, p) != state_at(
            initial,
            p,
        ) implies connected(initial, start, p) by {}
    assert forall|p: Position| #[trigger] open_at(initial, p) implies (state_at(after, p)
        == CellState::Visited <==> trail2.contains(p)) by {
        if p != c && trail.contains(p) {
            let i = choose|i: int| 0 <= i < trail.len() && trail[i] == p;
            assert(trail2[i] == p);
        }
    }
    // The turns taken along the trail stay spent.
    assert forall|i: int| 0 <= i < trail2.len() implies (#[trigger] tried2[i]) <= 4 && spent(
        after,
        trail2[i],
        tried2[i] as int,
    ) by {
        if i == last {
            assert forall|j: int| 0 <= j < turn implies !enterable(
                after,
                top,
                #[trigger] canonical_turn(j),
            ) by {}
        }
    }
}

/// When the start itself has been given up, the goal was out of reach.
proof fn lemma_out_of_reach(initial: Cells, cells: Cells, start: Position)
    requires
        square(initial),
        3 <= initial.len() <= usize::MAX,
        marked_forward(initial, cells),
        dead_sealed(initial, cells),
        forall|p: Position| #[trigger] open_at(initial, p) ==> state_at(cells, p) != CellState::Visited,
        open_at(initial, start),
        state_at(cells, start) == CellState::Dead,
        state_at(cells, goal_cell(initial)) == state_at(initial, goal_cell(initial)),
    ensures
        !connected(initial, start, goal_cell(initial)),
        forall|p: Position| #[trigger]
            connected(initial, start, p) ==> state_at(cells, p) == CellState::Dead,
{
    let goal = goal_cell(initial);
    let region = Set::new(|p: Position| open_at(initial, p) && state_at(cells, p) == CellState::Dead);
    assert forall|p: Position, path: Seq<Position>| #[trigger]
        route(initial, start, p, path) implies state_at(cells, p) == CellState::Dead by {
        assert forall|a: Position, b: Position|
            #![trigger region.contains(a), adjacent(a, b)]
            region.contains(a) && adjacent(a, b) && open_at(initial, b) implies region.contains(
            b,
        ) by {
            lemma_toward(cells, a, b);
            assert(!enterable(cells, a, toward(a, b)));
        }
        lemma_region_holds_path(initial, region, path, path.len() - 1);
    }
    assert forall|path: Seq<Position>| !#[trigger] route(initial, start, goal, path) by {}
}

/// Giving up the end of the trail, when no open cell lies beside it, keeps the invariant.
proof fn lemma_retreat(
    initial: Cells,
    cells: Cells,
    start: Position,
    trail: Seq<Position>,
    tried: Seq<usize>,
)
    requires
        tracking(initial, cells, start, trail, tried, SolveStatus::Searching),
        spent(cells, trail[trail.len() - 1], 4),
    ensures
        tracking(
            initial,
            with_state(cells, trail[trail.len() - 1], CellState::Dead),
            start,
            trail.drop_last(),
            tried.drop_last(),
            if trail.len() == 1 {
                SolveStatus::Exhausted
            } else {
                SolveStatus::Searching
            },
        ),
        count_of(with_state(cells, trail[trail.len() - 1], CellState::Dead), CellState::Open)
            == count_of(cells, CellState::Open),
{
    let last = trail.len() - 1;
    let top = trail[last];
    let after = with_state(cells, top, CellState::Dead);
    let trail2 = trail.drop_last();
    let goal = goal_cell(initial);
    lemma_with_state(cells, top, CellState::Dead);
    lemma_count_update(cells, top, CellState::Dead, CellState::Open);
    assert forall|q: Position| #[trigger] open_at(after, q) implies open_at(cells, q) by {}
    lemma_fewer_open(cells, after);
    assert forall|p: Position| in_bounds(initial, p) implies advanced(
        state_at(initial, p),
        #[trigger] state_at(after, p),
    ) by {}
    assert forall|p: Position|
        in_bounds(initial, p) && #[trigger] state_at(after, p) != state_at(
            initial,
            p,
        ) implies connected(initial, start, p) by {}
    assert forall|p: Position| #[trigger] open_at(initial, p) implies (state_at(after, p)
        == CellState::Visited <==> trail2.contains(p)) by {
        if p != top && trail.contains(p) {
            let i = choose|i: int| 0 <= i < trail.len() && trail[i] == p;
            assert(trail2[i] == p);
        }
    }
    assert(sealed(cells, top)) by {
        assert forall|d: Direction| !#[trigger] enterable(cells, top, d) by {
            match d {
                Direction::Up => assert(canonical_turn(0) == d),
                Direction::Right => assert(canonical_turn(1) == d),
                Direction::Down => assert(canonical_turn(2) == d),
                Direction::Left => assert(canonical_turn(3) == d),
            }
        }
    }
    assert forall|p: Position|
        open_at(initial, p) && #[trigger] state_at(after, p) == CellState::Dead implies sealed(
        after,
        p,
    ) by {}
    // The goal is not the cell given up: it was never on the trail.
    assert(goal != top);
    if trail.len() == 1 {
        lemma_out_of_reach(initial, after, start);
    } else {
        assert forall|i: int| 0 <= i < trail2.len() - 1 implies #[trigger] linked(trail2, i) by {
            assert(linked(trail, i));
        }
    }
}

/// A grid that a search from `start` has left is searched from `start` in vain: the second
/// search finds no way and marks nothing.
pub proof fn lemma_second_search_fails(
    initial: Cells,
    start: Position,
    first_trail: Seq<Position>,
    first_found: bool,
    between: Cells,
    second_trail: Seq<Position>,
    second_found: bool,
    last: Cells,
)
    requires
        searched(initial, between, start, first_trail, verdict(first_found)),
        searched(between, last, start, second_trail, verdict(second_found)),
    ensures
        !second_found,
        last == between,
{
    assert(!open_at(between, start));
    assert forall|p: Position, path: Seq<Position>| !#[trigger] route(between, start, p, path) by {}
    assert(last =~~= between) by {
        assert forall|y: int| 0 <= y < between.len() implies #[trigger] last[y] =~= between[y] by {
            assert forall|x: int| 0 <= x < between.len() implies last[y][x] == between[y][x] by {
                let p = (x as usize, y as usize);
                assert(state_at(last, p) == state_at(between, p));
            }
        }
    }
}

/// A depth-first search that owns its grid and makes one marking at a time, so that a
/// caller can look at the grid between the steps.
pub struct Solver {
    grid: Grid,
    trail: Vec<Position>,
    tried: Vec<usize>,
    status: SolveStatus,
    initial: Ghost<Cells>,
    origin: Ghost<Position>,
}

impl Solver {
    /// The grid as the search has marked it so far.
    pub closed spec fn cells(&self) -> Cells {
        self.grid@
    }

    /// The grid as the search found it.
    pub closed spec fn initial(&self) -> Cells {
        self.initial@
    }

    /// The cell from which the search set out.
    pub closed spec fn origin(&self) -> Position {
        self.origin@
    }

    /// The cells from the start to where the search stands.
    pub closed spec fn path(&self) -> Seq<Position> {
        self.trail@
    }

    /// How far the search has come.
    pub closed spec fn state(&self) -> SolveStatus {
        self.status
    }

    /// What the search keeps to itself: the grid is well formed, and the bookkeeping of
    /// the turns taken is sound.
    pub closed spec fn inner(&self) -> bool {
        &&& self.grid.wf()
        &&& tracking(self.initial@, self.grid@, self.origin@, self.trail@, self.tried@, self.status)
    }

    /// The invariant of the search.
    pub open spec fn wf(&self) -> bool {
        &&& self.inner()
        &&& searched(self.initial(), self.cells(), self.origin(), self.path(), self.state())
    }

    /// The search as a value of the model.
    pub open spec fn model(&self) -> Search {
        Search { cells: self.cells(), path: self.path(), status: self.state() }
    }

    /// An upper bound on the markings still to come: two for each open cell, one for each
    /// cell of the trail.
    pub open spec fn budget(&self) -> nat {
        2 * count_of(self.cells(), CellState::Open) + self.path().len()
    }

    /// Takes the grid and makes the first marking: the start becomes visited if it is an
    /// open cell of the grid; if it is not, the search is exhausted at once.
    pub fn new(grid: Grid, start: Position) -> (solver: Solver)
        requires
            grid.wf(),
        ensures
            solver.wf(),
            solver.initial() == grid@,
            solver.origin() == start,
            solver.model() == search_begin(grid@, start),
            solver.budget() <= 2 * count_of(grid@, CellState::Open),
    {
        let mut grid = grid;
        let ghost initial = grid@;
        proof {
            grid.lemma_wf();
        }
        let n = grid.size();
        let goal = grid.goal();
        let mut trail: Vec<Position> = Vec::new();
        let mut tried: Vec<usize> = Vec::new();
        let mut status = SolveStatus::Exhausted;
        let mut begun = false;
        if start.0 < n && start.1 < n {
            match grid.peek(start) {
                CellState::Open => {
                    begun = true;
                },
                _ => {},
            }
        }
        if begun {
            proof {
                lemma_begin(initial, start);
            }
            grid.mark(start, CellState::Visited);
            trail.push(start);
            tried.push(0);
            if start.0 == goal.0 && start.1 == goal.1 {
                status = SolveStatus::Solved;
            } else {
                status = SolveStatus::Searching;
            }
        } else {
            proof {
                lemma_never_begun(initial, start);
            }
        }
        Solver { grid, trail, tried, status, initial: Ghost(initial), origin: Ghost(start) }
    }

    /// How far the search has come.
    pub fn status(&self) -> (status: SolveStatus)
        ensures
            status == self.state(),
    {
        self.status
    }

    /// The grid, for a look at the markings.
    pub fn grid(&self) -> (grid: &Grid)
        requires
            self.wf(),
        ensures
            grid.wf(),
            grid@ == self.cells(),
    {
        &self.grid
    }

    /// The trail from the start to where the search stands.
    pub fn trail(&self) -> (trail: &Vec<Position>)
        ensures
            trail@ == self.path(),
    {
        &self.trail
    }

    /// Ends the search and hands the grid back.
    pub fn into_grid(self) -> (grid: Grid)
        requires
            self.wf(),
        ensures
            grid.wf(),
            grid@ == self.cells(),
    {
        self.grid
    }

    /// Makes the next marking of the search. From the last cell of the trail it tries the
    /// directions it has not tried yet, in the canonical order: the first that leads to an
    /// open cell is taken, and that cell becomes visited and the new end of the trail; if
    /// it is the goal, the search is solved. Where none is left, the last cell of the trail
    /// becomes dead and leaves the trail; if it was the start, the search is exhausted. A
    /// search that is solved or exhausted stays as it is.
    pub fn step(&mut self) -> (status: SolveStatus)
        requires
            old(self).wf(),
        ensures
            final(self).wf(),
            status == final(self).state(),
            final(self).initial() == old(self).initial(),
            final(self).origin() == old(self).origin(),
            final(self).model() == search_run(old(self).model(), 1),
            old(self).state() is Searching ==> final(self).budget() < old(self).budget(),
    {
        proof {
            assert(search_run(search_step(old(self).model()), 0) == search_step(old(self).model()));
        }
        match self.status {
            SolveStatus::Searching => {},
            _ => {
                return self.status;
            },
        }
        proof {
            self.grid.lemma_wf();
        }
        let ghost cells = self.grid@;
        let ghost initial = self.initial@;
        let last = self.trail.len() - 1;
        let top = self.trail[last];
        let goal = self.grid.goal();
        let mut turn = self.tried[last];
        let mut found: Option<Position> = None;
        while turn < 4 && found.is_none()
            invariant
                turn <= 4,
                self.grid.wf(),
                self.grid@ == cells,
                cells.len() <= usize::MAX,
                found is None ==> spent(cells, top, turn as int),
                found matches Some(c) ==> turn >= 1 && spent(cells, top, turn - 1) && has_neighbor(
                    cells,
                    top,
                    canonical_turn(turn - 1),
                ) && c == neighbor_of(top, canonical_turn(turn - 1)) && open_at(cells, c),
            decreases 4 - turn + if found is None { 1int } else { 0int },
        {
            let d = Grid::turn(turn);
            turn = turn + 1;
            match self.grid.neighbor(top, d) {
                Some(c) => {
                    match self.grid.peek(c) {
                        CellState::Open => {
                            found = Some(c);
                        },
                        _ => {},
                    }
                },
                None => {},
            }
            proof {
                if found is None {
                    assert forall|j: int| 0 <= j < turn implies !enterable(
                        cells,
                        top,
                        #[trigger] canonical_turn(j),
                    ) by {}
                }
            }
        }
        proof {
            if found is None {
                lemma_spent_way(cells, top, 4);
            } else {
                lemma_spent_way(cells, top, turn - 1);
            }
        }
        match found {
            Some(c) => {
                proof {
                    lemma_advance(initial, cells, self.origin@, self.trail@, self.tried@, c, turn as int);
                }
                self.tried[last] = turn;
                self.grid.mark(c, CellState::Visited);
                self.trail.push(c);
                self.tried.push(0);
                if c.0 == goal.0 && c.1 == goal.1 {
                    self.status = SolveStatus::Solved;
                }
            },
            None => {
                proof {
                    lemma_retreat(initial, cells, self.origin@, self.trail@, self.tried@);
                }
                self.grid.mark(top, CellState::Dead);
                self.trail.pop();
                self.tried.pop();
                if self.trail.len() == 0 {
                    self.status = SolveStatus::Exhausted;
                }
            },
        }
        self.status
    }
}

/// Searches `grid` depth-first from `start` for the goal, the cell diagonally opposite
/// `(1, 1)` one step inside the outer ring, and says whether it found a way: it does so
/// exactly when a walk over open cells leads from `start` to the goal. The cells of the way
/// found are left visited; the cells tried in vain are left dead. A start outside the grid
/// or on a cell that is not open gives `false` at once, and nothing is marked; so does a
/// second search from the start of a search that has come to its end.
pub fn solve_single_agent(grid: &mut Grid, start: Position) -> (found: bool)
    requires
        old(grid).wf(),
    ensures
        final(grid).wf(),
        found <==> connected(old(grid)@, start, goal_cell(old(grid)@)),
        found <==> search_end(old(grid)@, start).status is Solved,
        final(grid)@ == search_end(old(grid)@, start).cells,
        exists|trail: Seq<Position>| #[trigger]
            searched(old(grid)@, final(grid)@, start, trail, verdict(found)),
        !open_at(final(grid)@, start),
{
    let mut held = Grid::new(3);
    proof {
        old(grid).lemma_wf();
    }
    core::mem::swap(grid, &mut held);
    let mut solver = Solver::new(held, start);
    let ghost begin = search_begin(old(grid)@, start);
    let ghost mut steps: nat = 0;
    loop
        invariant
            solver.wf(),
            solver.initial() == old(grid)@,
            solver.origin() == start,
            begin == search_begin(old(grid)@, start),
            solver.model() == search_run(begin, steps),
        ensures
            !(solver.state() is Searching),
        decreases solver.budget(),
    {
        match solver.status() {
            SolveStatus::Searching => {
                proof {
                    lemma_search_one_more(begin, steps);
                    assert(search_run(search_step(solver.model()), 0) == search_step(
                        solver.model(),
                    ));
                    steps = steps + 1;
                }
                solver.step();
            },
            _ => {
                break ;
            },
        }
    }
    proof {
        lemma_search_end(old(grid)@, start, steps);
    }
    let found = match solver.status() {
        SolveStatus::Solved => true,
        _ => false,
    };
    let mut done = solver.into_grid();
    core::mem::swap(grid, &mut done);
    found
}

} // verus!
