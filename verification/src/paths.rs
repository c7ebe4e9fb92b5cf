//! Walks through open cells, connectivity, and what makes a maze perfect.

use crate::grid::{beside, has_neighbor, in_bounds, neighbor_of, open_at, square};
use crate::grid::{lemma_with_state, with_state};
use crate::grid::{CellState, Cells, Direction, Position};
use vstd::prelude::*;

verus! {

/// Four-directional adjacency: exactly one coordinate differs, by one.
pub open spec fn adjacent(p: Position, q: Position) -> bool {
    ||| p.0 == q.0 && (p.1 + 1 == q.1 || q.1 + 1 == p.1)
    ||| p.1 == q.1 && (p.0 + 1 == q.0 || q.0 + 1 == p.0)
}

/// The cells at `i` and `i + 1` of `path` are adjacent.
pub open spec fn linked(path: Seq<Position>, i: int) -> bool {
    adjacent(path[i], path[i + 1])
}

/// A non-empty walk over open cells, each step to an adjacent cell.
pub open spec fn is_path(cells: Cells, path: Seq<Position>) -> bool {
    &&& path.len() > 0
    &&& forall|i: int| 0 <= i < path.len() ==> open_at(cells, #[trigger] path[i])
    &&& forall|i: int| 0 <= i < path.len() - 1 ==> #[trigger] linked(path, i)
}

/// `path` begins at `a` and ends at `b`.
pub open spec fn joins(path: Seq<Position>, a: Position, b: Position) -> bool {
    path.len() > 0 && path[0] == a && path[path.len() - 1] == b
}

/// `path` walks from `a` to `b` over open cells.
pub open spec fn route(cells: Cells, a: Position, b: Position, path: Seq<Position>) -> bool {
    is_path(cells, path) && joins(path, a, b)
}

/// Some walk over open cells leads from `a` to `b`.
pub open spec fn connected(cells: Cells, a: Position, b: Position) -> bool {
    exists|path: Seq<Position>| #[trigger] route(cells, a, b, path)
}

/// A route that visits no cell twice.
pub open spec fn simple_route(cells: Cells, a: Position, b: Position, path: Seq<Position>) -> bool {
    route(cells, a, b, path) && path.no_duplicates()
}

/// `path` is the one and only simple route from `a` to `b`.
pub open spec fn only_route(cells: Cells, a: Position, b: Position, path: Seq<Position>) -> bool {
    &&& simple_route(cells, a, b, path)
    &&& forall|other: Seq<Position>| #[trigger] simple_route(cells, a, b, other) ==> other == path
}

/// A perfect maze: between any two open cells there is exactly one simple route.
pub open spec fn perfect(cells: Cells) -> bool {
    forall|a: Position, b: Position|
        #![trigger open_at(cells, a), open_at(cells, b)]
        open_at(cells, a) && open_at(cells, b) ==> exists|path: Seq<Position>| #[trigger]
            only_route(cells, a, b, path)
}

/// `leaf` is a closed cell whose only open neighbour is `stem`.
pub open spec fn is_leaf(cells: Cells, leaf: Position, stem: Position) -> bool {
    &&& square(cells)
    &&& in_bounds(cells, leaf)
    &&& !open_at(cells, leaf)
    &&& open_at(cells, stem)
    &&& adjacent(leaf, stem)
    &&& forall|q: Position| adjacent(leaf, q) && #[trigger] open_at(cells, q) ==> q == stem
}

/// The grid after `leaf` has been opened.
pub open spec fn grown(cells: Cells, leaf: Position) -> Cells {
    with_state(cells, leaf, CellState::Open)
}

/// After `leaf` has been opened, the open cells are those of before and `leaf`.
pub proof fn lemma_grown_open(cells: Cells, leaf: Position)
    requires
        square(cells),
        in_bounds(cells, leaf),
    ensures
        forall|q: Position| #[trigger]
            open_at(grown(cells, leaf), q) <==> (q == leaf || open_at(cells, q)),
{
    lemma_with_state(cells, leaf, CellState::Open);
}

/// A walk stays a walk when `leaf` is opened.
proof fn lemma_path_survives(cells: Cells, leaf: Position, path: Seq<Position>)
    requires
        square(cells),
        in_bounds(cells, leaf),
        is_path(cells, path),
    ensures
        is_path(grown(cells, leaf), path),
{
    lemma_grown_open(cells, leaf);
}

/// A walk of the grown grid that does not touch `leaf` was a walk before.
proof fn lemma_path_without_leaf(cells: Cells, leaf: Position, path: Seq<Position>)
    requires
        square(cells),
        in_bounds(cells, leaf),
        is_path(grown(cells, leaf), path),
        forall|i: int| 0 <= i < path.len() ==> path[i] != leaf,
    ensures
        is_path(cells, path),
{
    lemma_grown_open(cells, leaf);
}

/// A simple walk of the grown grid touches the leaf only at its ends.
proof fn lemma_leaf_only_at_ends(
    cells: Cells,
    leaf: Position,
    stem: Position,
    path: Seq<Position>,
    i: int,
)
    requires
        is_leaf(cells, leaf, stem),
        is_path(grown(cells, leaf), path),
        path.no_duplicates(),
        0 <= i < path.len(),
        path[i] == leaf,
    ensures
        i == 0 || i == path.len() - 1,
{
    lemma_grown_open(cells, leaf);
    if 0 < i < path.len() - 1 {
        assert(linked(path, i - 1));
        assert(linked(path, i));
    }
}

/// Between two cells other than the leaf the only route stays the only route.
proof fn lemma_leaf_elsewhere(
    cells: Cells,
    leaf: Position,
    stem: Position,
    a: Position,
    b: Position,
    path: Seq<Position>,
)
    requires
        is_leaf(cells, leaf, stem),
        a != leaf,
        b != leaf,
        only_route(cells, a, b, path),
    ensures
        only_route(grown(cells, leaf), a, b, path),
{
    lemma_path_survives(cells, leaf, path);
    assert forall|other: Seq<Position>| #[trigger]
        simple_route(grown(cells, leaf), a, b, other) implies other == path by {
        assert forall|i: int| 0 <= i < other.len() implies other[i] != leaf by {
            if other[i] == leaf {
                lemma_leaf_only_at_ends(cells, leaf, stem, other, i);
            }
        }
        lemma_path_without_leaf(cells, leaf, other);
        assert(simple_route(cells, a, b, other));
    }
}

/// From the leaf the only route leads over the stem.
proof fn lemma_leaf_first(
    cells: Cells,
    leaf: Position,
    stem: Position,
    b: Position,
    tail: Seq<Position>,
)
    requires
        is_leaf(cells, leaf, stem),
        b != leaf,
        only_route(cells, stem, b, tail),
    ensures
        only_route(grown(cells, leaf), leaf, b, seq![leaf] + tail),
{
    let after = grown(cells, leaf);
    let path = seq![leaf] + tail;
    lemma_grown_open(cells, leaf);
    lemma_path_survives(cells, leaf, tail);
    assert forall|i: int| 0 <= i < path.len() - 1 implies #[trigger] linked(path, i) by {
        if i > 0 {
            assert(linked(tail, i - 1));
        }
    }
    assert forall|other: Seq<Position>| #[trigger]
        simple_route(after, leaf, b, other) implies other == path by {
        let rest = other.subrange(1, other.len() as int);
        assert(linked(other, 0));
        assert forall|i: int| 0 <= i < rest.len() - 1 implies #[trigger] linked(rest, i) by {
            assert(linked(other, i + 1));
        }
        lemma_path_without_leaf(cells, leaf, rest);
        assert(simple_route(cells, stem, b, rest));
    }
}

/// To the leaf the only route leads over the stem.
proof fn lemma_leaf_last(
    cells: Cells,
    leaf: Position,
    stem: Position,
    a: Position,
    head: Seq<Position>,
)
    requires
        is_leaf(cells, leaf, stem),
        a != leaf,
        only_route(cells, a, stem, head),
    ensures
        only_route(grown(cells, leaf), a, leaf, head.push(leaf)),
{
    let after = grown(cells, leaf);
    let path = head.push(leaf);
    lemma_grown_open(cells, leaf);
    lemma_path_survives(cells, leaf, head);
    assert forall|i: int| 0 <= i < path.len() - 1 implies #[trigger] linked(path, i) by {
        if i < head.len() - 1 {
            assert(linked(head, i));
        }
    }
    assert forall|other: Seq<Position>| #[trigger]
        simple_route(after, a, leaf, other) implies other == path by {
        let last: int = other.len() - 1;
        let rest = other.subrange(0, last);
        assert(linked(other, last - 1));
        assert forall|i: int| 0 <= i < rest.len() - 1 implies #[trigger] linked(rest, i) by {
            assert(linked(other, i));
        }
        lemma_path_without_leaf(cells, leaf, rest);
        assert(simple_route(cells, a, stem, rest));
    }
}

/// From the leaf to itself the only route is the leaf alone.
proof fn lemma_leaf_to_itself(cells: Cells, leaf: Position, stem: Position)
    requires
        is_leaf(cells, leaf, stem),
    ensures
        only_route(grown(cells, leaf), leaf, leaf, seq![leaf]),
{
    let after = grown(cells, leaf);
    let path = seq![leaf];
    lemma_grown_open(cells, leaf);
    assert forall|other: Seq<Position>| #[trigger]
        simple_route(after, leaf, leaf, other) implies other == path by {}
}

/// Opening a closed cell that touches the open cells in exactly one place keeps the maze
/// perfect.
pub proof fn lemma_leaf_keeps_perfect(cells: Cells, leaf: Position, stem: Position)
    requires
        is_leaf(cells, leaf, stem),
        perfect(cells),
    ensures
        perfect(grown(cells, leaf)),
{
    let after = grown(cells, leaf);
    lemma_grown_open(cells, leaf);
    assert forall|a: Position, b: Position|
        #![trigger open_at(after, a), open_at(after, b)]
        open_at(after, a) && open_at(after, b) implies exists|path: Seq<Position>| #[trigger]
        only_route(after, a, b, path) by {
        if a == leaf && b == leaf {
            lemma_leaf_to_itself(cells, leaf, stem);
        } else if a == leaf {
            let tail = choose|path: Seq<Position>| only_route(cells, stem, b, path);
            lemma_leaf_first(cells, leaf, stem, b, tail);
        } else if b == leaf {
            let head = choose|path: Seq<Position>| only_route(cells, a, stem, path);
            lemma_leaf_last(cells, leaf, stem, a, head);
        } else {
            let path = choose|path: Seq<Position>| only_route(cells, a, b, path);
            lemma_leaf_elsewhere(cells, leaf, stem, a, b, path);
        }
    }
}

/// A grid with a single open cell is a perfect maze.
pub proof fn lemma_single_cell_perfect(cells: Cells, only: Position)
    requires
        open_at(cells, only),
        forall|q: Position| #[trigger] open_at(cells, q) ==> q == only,
    ensures
        perfect(cells),
{
    assert forall|a: Position, b: Position|
        #![trigger open_at(cells, a), open_at(cells, b)]
        open_at(cells, a) && open_at(cells, b) implies exists|path: Seq<Position>| #[trigger]
        only_route(cells, a, b, path) by {
        let path = seq![only];
        assert forall|other: Seq<Position>| #[trigger]
            simple_route(cells, a, b, other) implies other == path by {}
        assert(only_route(cells, a, b, path));
    }
}

/// One step from `p` in direction `d` leads to an open cell.
pub open spec fn enterable(cells: Cells, p: Position, d: Direction) -> bool {
    has_neighbor(cells, p, d) && open_at(cells, neighbor_of(p, d))
}

/// No open cell lies beside `p`.
pub open spec fn sealed(cells: Cells, p: Position) -> bool {
    forall|d: Direction| !#[trigger] enterable(cells, p, d)
}

/// The direction of the step from `p` to the adjacent cell `q`.
pub open spec fn toward(p: Position, q: Position) -> Direction {
    if q.1 + 1 == p.1 {
        Direction::Up
    } else if q.0 == p.0 + 1 {
        Direction::Right
    } else if q.1 == p.1 + 1 {
        Direction::Down
    } else {
        Direction::Left
    }
}

/// The step from `p` toward an adjacent cell of the grid leads to that cell.
pub proof fn lemma_toward(cells: Cells, p: Position, q: Position)
    requires
        adjacent(p, q),
        in_bounds(cells, q),
    ensures
        has_neighbor(cells, p, toward(p, q)),
        neighbor_of(p, toward(p, q)) == q,
{
}

/// A step that stays on the grid leads to an adjacent cell of the grid.
pub proof fn lemma_neighbor_adjacent(cells: Cells, p: Position, d: Direction)
    requires
        has_neighbor(cells, p, d),
        cells.len() <= usize::MAX,
    ensures
        adjacent(p, neighbor_of(p, d)),
        in_bounds(cells, neighbor_of(p, d)),
{
}

/// A walk that starts inside a set of cells which no step over open cells leaves stays
/// inside it.
pub proof fn lemma_region_holds_path(
    cells: Cells,
    region: Set<Position>,
    path: Seq<Position>,
    i: int,
)
    requires
        is_path(cells, path),
        region.contains(path[0]),
        forall|p: Position, q: Position|
            #![trigger region.contains(p), adjacent(p, q)]
            region.contains(p) && adjacent(p, q) && open_at(cells, q) ==> region.contains(q),
        0 <= i < path.len(),
    ensures
        region.contains(path[i]),
    decreases i,
{
    if i > 0 {
        lemma_region_holds_path(cells, region, path, i - 1);
        assert(linked(path, i - 1));
    }
}

/// A simple route grows by one step to an open cell that it has not visited.
pub proof fn lemma_extend_route(
    cells: Cells,
    a: Position,
    b: Position,
    path: Seq<Position>,
    c: Position,
)
    requires
        simple_route(cells, a, b, path),
        open_at(cells, c),
        adjacent(b, c),
        !path.contains(c),
    ensures
        simple_route(cells, a, c, path.push(c)),
{
    let longer = path.push(c);
    let last = path.len() - 1;
    assert forall|i: int| 0 <= i < longer.len() - 1 implies #[trigger] linked(longer, i) by {
        if i < last {
            assert(linked(path, i));
        }
    }
}

/// In a perfect maze two simple routes between the same cells are one and the same.
pub proof fn lemma_one_way(
    cells: Cells,
    a: Position,
    b: Position,
    first: Seq<Position>,
    second: Seq<Position>,
)
    requires
        perfect(cells),
        simple_route(cells, a, b, first),
        simple_route(cells, a, b, second),
    ensures
        first == second,
{
}

} // verus!
