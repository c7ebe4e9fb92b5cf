//! Carving a perfect maze by depth-first backtracking.

use crate::grid::{count_of, goal_cell, in_bounds, open_at, square, start_cell, state_at};
use crate::grid::{lemma_count_update, lemma_with_same_state, lemma_with_state};
use crate::grid::{CellState, Cells, Direction, Grid, Position};
use crate::paths::{adjacent, connected, grown, only_route, perfect, route};
use crate::paths::{lemma_grown_open, lemma_leaf_keeps_perfect, lemma_single_cell_perfect};
use rand::rngs::StdRng;
use rand::seq::SliceRandom;
use vstd::prelude::*;

verus! {

/// `rand::rngs::StdRng`, the random number generator from which the orders are drawn.
/// It is carried through to the shuffle; nothing is said of its state.
#[verifier::external_type_specification]
#[verifier::external_body]
pub struct ExStdRng(StdRng);

/// `rand::seq::SliceRandom::shuffle` on a slice: the items are rearranged in place by
/// swaps, so the same items are there afterwards, each as often as before. Which
/// arrangement comes out depends on the generator and is not stated.
#[verifier::external_body]
fn shuffle_in_place(items: &mut Vec<Direction>, rng: &mut StdRng)
    ensures
        final(items)@.to_multiset() == old(items)@.to_multiset(),
{
    items.shuffle(rng);
}

/// A sequence of four directions in which each of the four occurs.
pub open spec fn covers_all(order: Seq<Direction>) -> bool {
    order.len() == 4 && forall|d: Direction| #[trigger] order.contains(d)
}

/// The fixed order Up, Right, Down, Left.
pub open spec fn canonical_order() -> Seq<Direction> {
    seq![Direction::Up, Direction::Right, Direction::Down, Direction::Left]
}

/// The order in which one cell tries the four directions.
#[derive(Clone, Copy, Debug)]
pub struct DirectionOrder {
    first: Direction,
    second: Direction,
    third: Direction,
    fourth: Direction,
}

impl View for DirectionOrder {
    type V = Seq<Direction>;

    closed spec fn view(&self) -> Seq<Direction> {
        seq![self.first, self.second, self.third, self.fourth]
    }
}

impl DirectionOrder {
    /// Each of the four directions occurs.
    pub open spec fn wf(&self) -> bool {
        covers_all(self@)
    }

    /// The order Up, Right, Down, Left.
    pub fn canonical() -> (order: DirectionOrder)
        ensures
            order@ == canonical_order(),
            order.wf(),
    {
        let order = DirectionOrder {
            first: Direction::Up,
            second: Direction::Right,
            third: Direction::Down,
            fourth: Direction::Left,
        };
        proof {
            lemma_canonical_covers();
        }
        order
    }

    /// Accepts four directions exactly when no two of them are equal.
    pub fn new(first: Direction, second: Direction, third: Direction, fourth: Direction) -> (order:
        Option<DirectionOrder>)
        ensures
            order is Some <==> seq![first, second, third, fourth].no_duplicates(),
            order matches Some(o) ==> o@ == seq![first, second, third, fourth] && o.wf(),
    {
        if first != second && first != third && first != fourth && second != third && second
            != fourth && third != fourth {
            let order = DirectionOrder { first, second, third, fourth };
            Some(order)
        } else {
            None
        }
    }

    /// A fresh order drawn from `rng`.
    pub fn shuffled(rng: &mut StdRng) -> (order: DirectionOrder)
        ensures
            order.wf(),
    {
        let mut items: Vec<Direction> = Vec::new();
        items.push(Direction::Up);
        items.push(Direction::Right);
        items.push(Direction::Down);
        items.push(Direction::Left);
        let ghost before = items@;
        shuffle_in_place(&mut items, rng);
        proof {
            assert(before =~= canonical_order());
            lemma_canonical_covers();
            before.to_multiset_ensures();
            items@.to_multiset_ensures();
            assert forall|d: Direction| #[trigger] items@.contains(d) by {
                assert(before.to_multiset().count(d) > 0);
            }
        }
        let order = DirectionOrder {
            first: items[0],
            second: items[1],
            third: items[2],
            fourth: items[3],
        };
        proof {
            assert(order@ =~= items@);
        }
        order
    }

    /// The direction tried at turn `i`.
    pub fn get(&self, i: usize) -> (d: Direction)
        requires
            i < 4,
        ensures
            d == self@[i as int],
    {
        if i == 0 {
            self.first
        } else if i == 1 {
            self.second
        } else if i == 2 {
            self.third
        } else {
            self.fourth
        }
    }
}

/// The canonical order holds each of the four directions.
proof fn lemma_canonical_covers()
    ensures
        covers_all(canonical_order()),
{
    let order = canonical_order();
    assert forall|d: Direction| #[trigger] order.contains(d) by {
        match d {
            Direction::Up => assert(order[0] == d),
            Direction::Right => assert(order[1] == d),
            Direction::Down => assert(order[2] == d),
            Direction::Left => assert(order[3] == d),
        }
    }
}

/// Where the carver gets the order for each cell it enters: from a random number
/// generator, or from a prepared list (after whose end the canonical order is used).
pub struct OrderSource {
    rng: Option<StdRng>,
    script: Vec<DirectionOrder>,
    used: usize,
}

impl OrderSource {
    /// Every prepared order holds each of the four directions.
    pub closed spec fn wf(&self) -> bool {
        &&& self.used <= self.script@.len()
        &&& forall|i: int| 0 <= i < self.script@.len() ==> (#[trigger] self.script@[i]).wf()
    }

    /// The orders come from a random number generator.
    pub closed spec fn is_random(&self) -> bool {
        self.rng is Some
    }

    /// The prepared orders that have not been handed out yet.
    pub closed spec fn pending(&self) -> Seq<Seq<Direction>> {
        Seq::new((self.script@.len() - self.used) as nat, |i: int| self.script@[self.used + i]@)
    }

    /// A source that draws every order from `rng`.
    pub fn random(rng: StdRng) -> (source: OrderSource)
        ensures
            source.wf(),
            source.is_random(),
    {
        OrderSource { rng: Some(rng), script: Vec::new(), used: 0 }
    }

    /// A source that hands out `orders` one after the other, and the canonical order
    /// when they have run out.
    pub fn scripted(orders: Vec<DirectionOrder>) -> (source: OrderSource)
        requires
            forall|i: int| 0 <= i < orders@.len() ==> (#[trigger] orders@[i]).wf(),
        ensures
            source.wf(),
            !source.is_random(),
            source.pending() == orders@.map_values(|o: DirectionOrder| o@),
    {
        let source = OrderSource { rng: None, script: orders, used: 0 };
        source
    }

    /// The order for the next cell.
    pub fn next(&mut self) -> (order: DirectionOrder)
        requires
            old(self).wf(),
        ensures
            final(self).wf(),
            order.wf(),
            final(self).is_random() == old(self).is_random(),
            !old(self).is_random() ==> order@ == next_order(old(self).pending())
                && final(self).pending() == later_orders(old(self).pending()),
    {
        match &mut self.rng {
            Some(rng) => DirectionOrder::shuffled(rng),
            None => {
                if self.used < self.script.len() {
                    let order = self.script[self.used];
                    self.used = self.used + 1;
                    order
                } else {
                    DirectionOrder::canonical()
                }
            },
        }
    }
}

/// The order that a prepared list hands out next.
pub open spec fn next_order(pending: Seq<Seq<Direction>>) -> Seq<Direction> {
    if pending.len() > 0 {
        pending[0]
    } else {
        canonical_order()
    }
}

/// What is left of a prepared list after it has handed out one order.
pub open spec fn later_orders(pending: Seq<Seq<Direction>>) -> Seq<Seq<Direction>> {
    if pending.len() > 0 {
        pending.drop_first()
    } else {
        pending
    }
}

/// Strictly inside the outer ring of a grid of side `n`.
pub open spec fn inside(n: int, x: int, y: int) -> bool {
    0 < x < n - 1 && 0 < y < n - 1
}

/// A cell inside the ring with both coordinates odd: a node of the lattice that the
/// carver walks in steps of two.
pub open spec fn is_junction(cells: Cells, p: Position) -> bool {
    inside(cells.len() as int, p.0 as int, p.1 as int) && p.0 % 2 == 1 && p.1 % 2 == 1
}

/// The cell on the outer ring.
pub open spec fn on_ring(cells: Cells, p: Position) -> bool {
    in_bounds(cells, p) && (p.0 == 0 || p.1 == 0 || p.0 == cells.len() - 1 || p.1 == cells.len()
        - 1)
}

/// The column two steps from `p` in direction `d`; it may leave the grid.
pub open spec fn far_x(p: Position, d: Direction) -> int {
    match d {
        Direction::Right => p.0 + 2,
        Direction::Left => p.0 - 2,
        _ => p.0 as int,
    }
}

/// The row two steps from `p` in direction `d`; it may leave the grid.
pub open spec fn far_y(p: Position, d: Direction) -> int {
    match d {
        Direction::Down => p.1 + 2,
        Direction::Up => p.1 - 2,
        _ => p.1 as int,
    }
}

/// The cell two steps from `p` in direction `d`.
pub open spec fn far_of(p: Position, d: Direction) -> Position {
    (far_x(p, d) as usize, far_y(p, d) as usize)
}

/// The cell between `p` and `far_of(p, d)`.
pub open spec fn middle_of(p: Position, d: Direction) -> Position {
    match d {
        Direction::Up => (p.0, (p.1 - 1) as usize),
        Direction::Right => ((p.0 + 1) as usize, p.1),
        Direction::Down => (p.0, (p.1 + 1) as usize),
        Direction::Left => ((p.0 - 1) as usize, p.1),
    }
}

/// From `p` the carver may cut a corridor in direction `d`: the cell two steps away lies
/// inside the ring and is still a wall.
pub open spec fn carvable(cells: Cells, p: Position, d: Direction) -> bool {
    inside(cells.len() as int, far_x(p, d), far_y(p, d)) && state_at(cells, far_of(p, d))
        == CellState::Wall
}

/// No corridor can be cut from `p` any more.
pub open spec fn settled(cells: Cells, p: Position) -> bool {
    forall|d: Direction| !#[trigger] carvable(cells, p, d)
}

/// Where `p` has an even coordinate, the two cells beside it along that axis are open.
pub open spec fn bridged(cells: Cells, p: Position) -> bool {
    &&& p.0 % 2 == 0 ==> open_at(cells, ((p.0 - 1) as usize, p.1)) && open_at(
        cells,
        ((p.0 + 1) as usize, p.1),
    )
    &&& p.1 % 2 == 0 ==> open_at(cells, (p.0, (p.1 - 1) as usize)) && open_at(
        cells,
        (p.0, (p.1 + 1) as usize),
    )
}

/// What holds of the grid all through the carving: cells are walls or open; open cells
/// lie inside the ring, never on a position with two even coordinates; and an open cell
/// between two junctions has both of them open.
pub open spec fn carved_shape(cells: Cells) -> bool {
    &&& square(cells)
    &&& 5 <= cells.len() <= usize::MAX
    &&& cells.len() % 2 == 1
    &&& forall|p: Position|
        in_bounds(cells, p) ==> #[trigger] state_at(cells, p) == CellState::Wall || state_at(
            cells,
            p,
        ) == CellState::Open
    &&& forall|p: Position| #[trigger]
        open_at(cells, p) ==> inside(cells.len() as int, p.0 as int, p.1 as int) && (p.0 % 2 == 1
            || p.1 % 2 == 1)
    &&& forall|p: Position| open_at(cells, p) ==> #[trigger] bridged(cells, p)
}

/// A finished maze: walls and open cells only, the outer ring all wall, start and goal
/// open, every junction open, and exactly one simple route between any two open cells.
pub open spec fn is_maze(cells: Cells) -> bool {
    &&& square(cells)
    &&& 5 <= cells.len() <= usize::MAX
    &&& cells.len() % 2 == 1
    &&& forall|p: Position|
        in_bounds(cells, p) ==> #[trigger] state_at(cells, p) == CellState::Wall || state_at(
            cells,
            p,
        ) == CellState::Open
    &&& forall|p: Position| #[trigger] on_ring(cells, p) ==> state_at(cells, p) == CellState::Wall
    &&& open_at(cells, start_cell())
    &&& open_at(cells, goal_cell(cells))
    &&& forall|p: Position| #[trigger] is_junction(cells, p) ==> open_at(cells, p)
    &&& perfect(cells)
}

/// In a finished maze a walk over open cells leads from the start to the goal.
pub proof fn lemma_maze_joins_start_and_goal(cells: Cells)
    requires
        is_maze(cells),
    ensures
        connected(cells, start_cell(), goal_cell(cells)),
{
    let path = choose|path: Seq<Position>|
        only_route(cells, start_cell(), goal_cell(cells), path);
}

/// The grid after a corridor has been cut from `p` in direction `d`.
pub open spec fn cut(cells: Cells, p: Position, d: Direction) -> Cells {
    grown(grown(cells, middle_of(p, d)), far_of(p, d))
}

/// Cutting a corridor from an open junction to a junction that is still a wall opens two
/// walls and keeps the shape of the grid and the maze perfect.
proof fn lemma_cut(cells: Cells, p: Position, d: Direction)
    requires
        carved_shape(cells),
        perfect(cells),
        open_at(cells, p),
        is_junction(cells, p),
        carvable(cells, p, d),
    ensures
        in_bounds(cells, middle_of(p, d)),
        in_bounds(cells, far_of(p, d)),
        cut(cells, p, d).len() == cells.len(),
        carved_shape(cut(cells, p, d)),
        perfect(cut(cells, p, d)),
        is_junction(cut(cells, p, d), far_of(p, d)),
        !is_junction(cells, middle_of(p, d)),
        forall|q: Position| #[trigger]
            open_at(cut(cells, p, d), q) <==> (open_at(cells, q) || q == middle_of(p, d) || q
                == far_of(p, d)),
        forall|q: Position|
            in_bounds(cells, q) && #[trigger] state_at(cut(cells, p, d), q) == CellState::Wall
                ==> state_at(cells, q) == CellState::Wall,
        count_of(cut(cells, p, d), CellState::Wall) < count_of(cells, CellState::Wall),
{
    let mid = middle_of(p, d);
    let far = far_of(p, d);
    let half = grown(cells, mid);
    let after = grown(half, far);
    if open_at(cells, mid) {
        assert(bridged(cells, mid));
    }
    lemma_leaf_keeps_perfect(cells, mid, p);
    lemma_with_state(cells, mid, CellState::Open);
    lemma_grown_open(cells, mid);
    lemma_count_update(cells, mid, CellState::Open, CellState::Wall);
    assert forall|q: Position| adjacent(far, q) && #[trigger] open_at(half, q) implies q == mid by {
        if q != mid {
            assert(bridged(cells, q));
        }
    }
    lemma_leaf_keeps_perfect(half, far, mid);
    lemma_with_state(half, far, CellState::Open);
    lemma_grown_open(half, far);
    lemma_count_update(half, far, CellState::Open, CellState::Wall);
    assert forall|q: Position| open_at(after, q) implies #[trigger] bridged(after, q) by {
        if q != mid && q != far {
            assert(bridged(cells, q));
        }
    }
}

/// One entry of the carver's stack: a junction, the order in which it tries the four
/// directions, and how many of them it has tried.
#[derive(Clone, Copy)]
struct Frame {
    cell: Position,
    order: DirectionOrder,
    tried: usize,
}

/// The frame holds an open junction, and the turns it has taken can cut no corridor.
spec fn frame_ok(cells: Cells, f: Frame) -> bool {
    &&& is_junction(cells, f.cell)
    &&& open_at(cells, f.cell)
    &&& covers_all(f.order@)
    &&& f.tried <= 4
    &&& forall|j: int| 0 <= j < f.tried ==> !carvable(cells, f.cell, #[trigger] f.order@[j])
}

/// A frame of the stack holds the junction `p`.
spec fn on_stack(stack: Seq<Frame>, p: Position) -> bool {
    exists|i: int| 0 <= i < stack.len() && (#[trigger] stack[i]).cell == p
}

/// The loop invariant of the carver.
spec fn carving(cells: Cells, stack: Seq<Frame>) -> bool {
    &&& carved_shape(cells)
    &&& perfect(cells)
    &&& open_at(cells, start_cell())
    &&& forall|i: int| 0 <= i < stack.len() ==> frame_ok(cells, #[trigger] stack[i])
    &&& forall|p: Position| #[trigger]
        open_at(cells, p) && is_junction(cells, p) ==> on_stack(stack, p) || settled(cells, p)
}

/// The turns that the top of the stack has left.
spec fn turns_left(stack: Seq<Frame>) -> int {
    if stack.len() > 0 {
        4 - stack[stack.len() - 1].tried
    } else {
        0
    }
}

/// The frame `f` after one more turn.
spec fn bumped(f: Frame) -> Frame {
    Frame { cell: f.cell, order: f.order, tried: (f.tried + 1) as usize }
}

/// A junction that has had its four turns can leave the stack.
proof fn lemma_pop_finished(cells: Cells, stack: Seq<Frame>)
    requires
        carving(cells, stack),
        stack.len() > 0,
        stack[stack.len() - 1].tried >= 4,
    ensures
        carving(cells, stack.drop_last()),
{
    let rest = stack.drop_last();
    let top = stack[stack.len() - 1];
    assert forall|d: Direction| !#[trigger] carvable(cells, top.cell, d) by {
        assert(top.order@.contains(d));
    }
    assert forall|p: Position| #[trigger]
        open_at(cells, p) && is_junction(cells, p) implies on_stack(rest, p) || settled(
        cells,
        p,
    ) by {
        if !settled(cells, p) {
            let i = choose|i: int| 0 <= i < stack.len() && (#[trigger] stack[i]).cell == p;
            assert(rest[i].cell == p);
        }
    }
}

/// A turn in a direction in which no corridor can be cut keeps the invariant.
proof fn lemma_skip(cells: Cells, stack: Seq<Frame>)
    requires
        carving(cells, stack),
        stack.len() > 0,
        stack[stack.len() - 1].tried < 4,
        !carvable(
            cells,
            stack[stack.len() - 1].cell,
            stack[stack.len() - 1].order@[stack[stack.len() - 1].tried as int],
        ),
    ensures
        carving(cells, stack.drop_last().push(bumped(stack[stack.len() - 1]))),
{
    let top = stack[stack.len() - 1];
    let next = stack.drop_last().push(bumped(top));
    assert forall|p: Position| #[trigger]
        open_at(cells, p) && is_junction(cells, p) implies on_stack(next, p) || settled(
        cells,
        p,
    ) by {
        if !settled(cells, p) {
            let i = choose|i: int| 0 <= i < stack.len() && (#[trigger] stack[i]).cell == p;
            assert(next[i].cell == p);
        }
    }
}

/// A turn that cuts a corridor and puts the junction at its far end on the stack keeps
/// the invariant.
proof fn lemma_enter(cells: Cells, stack: Seq<Frame>, entered: Frame)
    requires
        carving(cells, stack),
        stack.len() > 0,
        stack[stack.len() - 1].tried < 4,
        carvable(
            cells,
            stack[stack.len() - 1].cell,
            stack[stack.len() - 1].order@[stack[stack.len() - 1].tried as int],
        ),
        entered.cell == far_of(
            stack[stack.len() - 1].cell,
            stack[stack.len() - 1].order@[stack[stack.len() - 1].tried as int],
        ),
        entered.tried == 0,
        covers_all(entered.order@),
    ensures
        carving(
            cut(
                cells,
                stack[stack.len() - 1].cell,
                stack[stack.len() - 1].order@[stack[stack.len() - 1].tried as int],
            ),
            stack.drop_last().push(bumped(stack[stack.len() - 1])).push(entered),
        ),
{
    let top = stack[stack.len() - 1];
    let d = top.order@[top.tried as int];
    let after = cut(cells, top.cell, d);
    let next = stack.drop_last().push(bumped(top)).push(entered);
    let far = far_of(top.cell, d);
    lemma_cut(cells, top.cell, d);
    assert forall|q: Position, e: Direction| #[trigger]
        carvable(after, q, e) implies carvable(cells, q, e) by {}
    assert forall|p: Position| #[trigger]
        open_at(after, p) && is_junction(after, p) implies on_stack(next, p) || settled(
        after,
        p,
    ) by {
        if p == far {
            assert(next[stack.len() as int].cell == p);
        } else {
            if !settled(cells, p) {
                let i = choose|i: int| 0 <= i < stack.len() && (#[trigger] stack[i]).cell == p;
                assert(next[i].cell == p);
            }
        }
    }
}

/// Once no open junction can cut a corridor any more, every junction is open.
proof fn lemma_every_junction_open(cells: Cells, p: Position)
    requires
        carved_shape(cells),
        open_at(cells, start_cell()),
        forall|q: Position| #[trigger] open_at(cells, q) && is_junction(cells, q) ==> settled(cells, q),
        is_junction(cells, p),
    ensures
        open_at(cells, p),
    decreases p.0 + p.1,
{
    if p.0 == 1 && p.1 == 1 {
    } else if p.0 > 1 {
        let left = ((p.0 - 2) as usize, p.1);
        lemma_every_junction_open(cells, left);
        assert(!carvable(cells, left, Direction::Right));
    } else {
        let above = (p.0, (p.1 - 2) as usize);
        lemma_every_junction_open(cells, above);
        assert(!carvable(cells, above, Direction::Down));
    }
}

/// One entry of the carver's stack as a value of the model: a junction, the order in which
/// it tries the four directions, and how many of them it has tried.
pub struct CarveFrame {
    pub cell: Position,
    pub order: Seq<Direction>,
    pub tried: int,
}

/// The carver between two steps: the grid, the stack of junctions that it has entered and
/// not left, and the prepared orders not handed out yet.
pub struct Carver {
    pub cells: Cells,
    pub stack: Seq<CarveFrame>,
    pub pending: Seq<Seq<Direction>>,
}

/// A grid of side `size` with every cell a wall.
pub open spec fn blank(size: nat) -> Cells {
    Seq::new(size, |y: int| Seq::new(size, |x: int| CellState::Wall))
}

/// The carver as it sets out: the start is open and is the only junction on the stack,
/// with the first order of the script.
pub open spec fn carve_begin(size: nat, script: Seq<Seq<Direction>>) -> Carver {
    Carver {
        cells: grown(blank(size), start_cell()),
        stack: seq![CarveFrame { cell: start_cell(), order: next_order(script), tried: 0 }],
        pending: later_orders(script),
    }
}

/// One step of the carver. The junction on top of the stack takes its next turn: where a
/// corridor can be cut in that direction, it is cut, and the junction at its far end goes
/// on the stack with the next order of the script. A junction that has had its four turns
/// leaves the stack.
pub open spec fn carve_step(s: Carver) -> Carver {
    let top = s.stack[s.stack.len() - 1];
    let rest = s.stack.drop_last();
    if top.tried >= 4 {
        Carver { cells: s.cells, stack: rest, pending: s.pending }
    } else {
        let d = top.order[top.tried];
        let turned = CarveFrame { cell: top.cell, order: top.order, tried: top.tried + 1 };
        if carvable(s.cells, top.cell, d) {
            Carver {
                cells: cut(s.cells, top.cell, d),
                stack: rest.push(turned).push(
                    CarveFrame { cell: far_of(top.cell, d), order: next_order(s.pending), tried: 0 },
                ),
                pending: later_orders(s.pending),
            }
        } else {
            Carver { cells: s.cells, stack: rest.push(turned), pending: s.pending }
        }
    }
}

/// The carver after `steps` steps, or after fewer if its stack has run empty before.
pub open spec fn carve_run(s: Carver, steps: nat) -> Carver
    decreases steps,
{
    if steps == 0 || s.stack.len() == 0 {
        s
    } else {
        carve_run(carve_step(s), (steps - 1) as nat)
    }
}

/// The carver has left every junction.
pub open spec fn carve_done(size: nat, script: Seq<Seq<Direction>>, steps: nat) -> bool {
    carve_run(carve_begin(size, script), steps).stack.len() == 0
}

/// The maze of side `size` that the script carves: the grid as it is when the carver has
/// left every junction.
pub open spec fn carved(size: nat, script: Seq<Seq<Direction>>) -> Cells {
    carve_run(
        carve_begin(size, script),
        choose|steps: nat| carve_done(size, script, steps),
    ).cells
}

/// One more step allowed is one more step taken, unless the stack has run empty.
pub proof fn lemma_run_one_more(s: Carver, steps: nat)
    ensures
        carve_run(s, steps + 1) == if carve_run(s, steps).stack.len() == 0 {
            carve_run(s, steps)
        } else {
            carve_step(carve_run(s, steps))
        },
    decreases steps,
{
    if steps == 0 || s.stack.len() == 0 {
        if s.stack.len() > 0 {
            assert(carve_run(carve_step(s), 0) == carve_step(s));
        }
    } else {
        lemma_run_one_more(carve_step(s), (steps - 1) as nat);
    }
}

/// Once the stack has run empty, further steps change nothing.
pub proof fn lemma_run_rests(s: Carver, steps: nat, more: nat)
    requires
        carve_run(s, steps).stack.len() == 0,
        more >= steps,
    ensures
        carve_run(s, more) == carve_run(s, steps),
    decreases steps,
{
    if steps == 0 || s.stack.len() == 0 {
    } else {
        lemma_run_rests(carve_step(s), (steps - 1) as nat, (more - 1) as nat);
    }
}

/// Whatever number of steps empties the stack, the maze is the same.
pub proof fn lemma_carved(size: nat, script: Seq<Seq<Direction>>, steps: nat)
    requires
        carve_done(size, script, steps),
    ensures
        carved(size, script) == carve_run(carve_begin(size, script), steps).cells,
{
    let chosen = choose|steps: nat| carve_done(size, script, steps);
    let begin = carve_begin(size, script);
    if chosen >= steps {
        lemma_run_rests(begin, steps, chosen);
    } else {
        lemma_run_rests(begin, chosen, steps);
    }
}

/// The frame as a value of the model.
spec fn frame_view(f: Frame) -> CarveFrame {
    CarveFrame { cell: f.cell, order: f.order@, tried: f.tried as int }
}

/// The stack as a value of the model.
spec fn frames_view(stack: Seq<Frame>) -> Seq<CarveFrame> {
    Seq::new(stack.len(), |i: int| frame_view(stack[i]))
}

/// The carver of the model stands where the loop stands.
spec fn in_step(run: Carver, cells: Cells, stack: Seq<Frame>, pending: Seq<Seq<Direction>>) -> bool {
    run.cells == cells && run.stack == frames_view(stack) && run.pending == pending
}

/// Every order of the script holds each of the four directions.
pub open spec fn valid_script(script: Seq<Seq<Direction>>) -> bool {
    forall|i: int| 0 <= i < script.len() ==> covers_all(#[trigger] script[i])
}

/// One step of the loop, from `cells` and `before` to `after` and `stack`, is the step
/// that the model takes with `pending`.
spec fn same_step(
    cells: Cells,
    before: Seq<Frame>,
    pending: Seq<Seq<Direction>>,
    after: Cells,
    stack: Seq<Frame>,
    drew: bool,
) -> bool {
    in_step(
        carve_step(Carver { cells, stack: frames_view(before), pending }),
        after,
        stack,
        if drew {
            later_orders(pending)
        } else {
            pending
        },
    )
}

/// Whatever orders are still to come, the loop stands where the model stands after
/// `steps` steps on the orders drawn so far and those to come.
spec fn follows(
    size: nat,
    drawn: Seq<Seq<Direction>>,
    steps: nat,
    cells: Cells,
    stack: Seq<Frame>,
) -> bool {
    forall|tail: Seq<Seq<Direction>>| #[trigger]
        in_step(carve_run(carve_begin(size, drawn + tail), steps), cells, stack, tail)
}

/// A step of the loop that is the step of the model keeps the loop where the model is.
proof fn lemma_follows_on(
    size: nat,
    drawn: Seq<Seq<Direction>>,
    steps: nat,
    cells: Cells,
    before: Seq<Frame>,
    after: Cells,
    stack: Seq<Frame>,
    drew: bool,
    order: Seq<Direction>,
)
    requires
        follows(size, drawn, steps, cells, before),
        before.len() > 0,
        forall|pending: Seq<Seq<Direction>>|
            (drew ==> next_order(pending) == order) ==> #[trigger] same_step(
                cells,
                before,
                pending,
                after,
                stack,
                drew,
            ),
    ensures
        follows(
            size,
            if drew {
                drawn.push(order)
            } else {
                drawn
            },
            steps + 1,
            after,
            stack,
        ),
{
    let longer = if drew {
        drawn.push(order)
    } else {
        drawn
    };
    assert forall|tail: Seq<Seq<Direction>>| #[trigger]
        in_step(carve_run(carve_begin(size, longer + tail), steps + 1), after, stack, tail) by {
        let pending = if drew {
            seq![order] + tail
        } else {
            tail
        };
        assert(drawn + pending =~= longer + tail);
        let begin = carve_begin(size, drawn + pending);
        let run = carve_run(begin, steps);
        assert(in_step(run, cells, before, pending));
        lemma_run_one_more(begin, steps);
        assert(same_step(cells, before, pending, after, stack, drew));
        if drew {
            assert(later_orders(pending) =~= tail);
        }
    }
}

/// Looks two steps from `cell` in direction `d` and, where a corridor can be cut, returns
/// the cell in between and the cell two steps away.
fn probe(grid: &Grid, cell: Position, d: Direction) -> (found: Option<(Position, Position)>)
    requires
        grid.wf(),
        is_junction(grid@, cell),
    ensures
        found is Some <==> carvable(grid@, cell, d),
        found matches Some(pair) ==> pair.0 == middle_of(cell, d) && pair.1 == far_of(cell, d),
{
    proof {
        grid.lemma_wf();
    }
    let n = grid.size();
    let x = cell.0;
    let y = cell.1;
    let (mid, far): (Position, Position) = match d {
        Direction::Up => {
            if y < 2 {
                return None;
            }
            ((x, y - 1), (x, y - 2))
        },
        Direction::Right => ((x + 1, y), (x + 2, y)),
        Direction::Down => ((x, y + 1), (x, y + 2)),
        Direction::Left => {
            if x < 2 {
                return None;
            }
            ((x - 1, y), (x - 2, y))
        },
    };
    if far.0 > 0 && far.1 > 0 && far.0 < n - 1 && far.1 < n - 1 {
        match grid.peek(far) {
            CellState::Wall => Some((mid, far)),
            _ => None,
        }
    } else {
        None
    }
}

/// Carves a perfect maze into a fresh grid of side `size`, an odd number from 5 on whose
/// square fits in a `usize`.
///
/// Every cell begins as a wall and the start is opened. From the junction on top of its
/// stack the carver looks two steps away in each of the four directions, in the order that
/// `source` has handed out for that junction: where the cell there lies inside the outer
/// ring and is still a wall, it opens that cell and the cell in between, and goes on from
/// there with a fresh order; a junction that has looked in all four directions is left for
/// the one from which it was entered. At the end the start and the goal are written open
/// and the outer ring is written wall once more, which changes nothing.
///
/// The maze is the one that the model carves from the orders handed out; with a scripted
/// source, from its script.
pub fn generate_maze(size: usize, source: &mut OrderSource) -> (grid: Grid)
    requires
        size >= 5,
        size % 2 == 1,
        size * size < usize::MAX,
        old(source).wf(),
    ensures
        grid.wf(),
        grid@.len() == size,
        is_maze(grid@),
        exists|script: Seq<Seq<Direction>>|
            valid_script(script) && grid@ == #[trigger] carved(size as nat, script),
        !old(source).is_random() ==> grid@ == carved(size as nat, old(source).pending()),
        final(source).wf(),
        final(source).is_random() == old(source).is_random(),
{
    let ghost script = old(source).pending();
    let ghost scripted = !old(source).is_random();
    let ghost begin = carve_begin(size as nat, script);
    let ghost mut steps: nat = 0;
    let mut grid = Grid::new(size);
    proof {
        grid.lemma_wf();
        lemma_with_state(grid@, start_cell(), CellState::Open);
        assert(grid@ =~~= blank(size as nat)) by {
            assert forall|y: int| 0 <= y < size implies #[trigger] grid@[y] =~= blank(
                size as nat,
            )[y] by {
                assert forall|x: int| 0 <= x < size implies grid@[y][x] == CellState::Wall by {
                    assert(state_at(grid@, (x as usize, y as usize)) == CellState::Wall);
                }
            }
        }
    }
    grid.mark((1, 1), CellState::Open);
    let first = source.next();
    let ghost mut drawn: Seq<Seq<Direction>> = seq![first@];
    let mut stack: Vec<Frame> = Vec::new();
    stack.push(Frame { cell: (1, 1), order: first, tried: 0 });
    proof {
        let cells = grid@;
        if scripted {
            assert(frames_view(stack@) =~= begin.stack);
        }
        assert forall|tail: Seq<Seq<Direction>>| #[trigger]
            in_step(carve_run(carve_begin(size as nat, drawn + tail), steps), cells, stack@, tail) by {
            let from = carve_begin(size as nat, drawn + tail);
            assert(frames_view(stack@) =~= from.stack);
            assert(later_orders(drawn + tail) =~= tail);
        }
        lemma_single_cell_perfect(cells, start_cell());
        assert(frame_ok(cells, stack@[0]));
    }
    while stack.len() > 0
        invariant
            grid.wf(),
            grid@.len() == size,
            source.wf(),
            source.is_random() == old(source).is_random(),
            carving(grid@, stack@),
            scripted == !old(source).is_random(),
            begin == carve_begin(size as nat, script),
            scripted ==> in_step(carve_run(begin, steps), grid@, stack@, source.pending()),
            valid_script(drawn),
            follows(size as nat, drawn, steps, grid@, stack@),
        decreases count_of(grid@, CellState::Wall), stack.len(), turns_left(stack@),
    {
        let ghost before = stack@;
        let ghost cells = grid@;
        let ghost rest = frames_view(before.drop_last());
        let frame = stack.pop().unwrap();
        proof {
            assert(frames_view(before).drop_last() =~= rest);
            if scripted {
                lemma_run_one_more(begin, steps);
            }
        }
        if frame.tried < 4 {
            let d = frame.order.get(frame.tried);
            let found = probe(&grid, frame.cell, d);
            stack.push(Frame { cell: frame.cell, order: frame.order, tried: frame.tried + 1 });
            match found {
                Some(pair) => {
                    let order = source.next();
                    let entered = Frame { cell: pair.1, order, tried: 0 };
                    proof {
                        lemma_cut(cells, frame.cell, d);
                        lemma_enter(cells, before, entered);
                    }
                    grid.mark(pair.0, CellState::Open);
                    grid.mark(pair.1, CellState::Open);
                    stack.push(entered);
                    proof {
                        assert(frames_view(stack@) =~= rest.push(frame_view(bumped(frame))).push(
                            frame_view(entered),
                        ));
                        assert forall|p: Seq<Seq<Direction>>|
                            next_order(p) == order@ implies #[trigger] same_step(
                            cells,
                            before,
                            p,
                            grid@,
                            stack@,
                            true,
                        ) by {}
                        lemma_follows_on(
                            size as nat,
                            drawn,
                            steps,
                            cells,
                            before,
                            grid@,
                            stack@,
                            true,
                            order@,
                        );
                        drawn = drawn.push(order@);
                        steps = steps + 1;
                    }
                },
                None => {
                    proof {
                        lemma_skip(cells, before);
                        assert(frames_view(stack@) =~= rest.push(frame_view(bumped(frame))));
                        assert forall|p: Seq<Seq<Direction>>| #[trigger]
                            same_step(cells, before, p, grid@, stack@, false) by {}
                        lemma_follows_on(
                            size as nat,
                            drawn,
                            steps,
                            cells,
                            before,
                            grid@,
                            stack@,
                            false,
                            Seq::empty(),
                        );
                        steps = steps + 1;
                    }
                },
            }
        } else {
            proof {
                lemma_pop_finished(cells, before);
                assert forall|p: Seq<Seq<Direction>>| #[trigger]
                    same_step(cells, before, p, grid@, stack@, false) by {}
                lemma_follows_on(
                    size as nat,
                    drawn,
                    steps,
                    cells,
                    before,
                    grid@,
                    stack@,
                    false,
                    Seq::empty(),
                );
                steps = steps + 1;
            }
        }
    }
    let goal = grid.goal();
    proof {
        let cells = grid@;
        assert forall|p: Position| #[trigger] is_junction(cells, p) implies open_at(cells, p) by {
            lemma_every_junction_open(cells, p);
        }
        assert(is_junction(cells, goal));
        assert forall|p: Position| #[trigger] on_ring(cells, p) implies state_at(cells, p)
            == CellState::Wall by {
            assert(!open_at(cells, p));
        }
        lemma_with_same_state(cells, start_cell());
        lemma_with_same_state(cells, goal);
        if scripted {
            lemma_carved(size as nat, script, steps);
        }
        assert(in_step(
            carve_run(carve_begin(size as nat, drawn + Seq::<Seq<Direction>>::empty()), steps),
            cells,
            stack@,
            Seq::<Seq<Direction>>::empty(),
        ));
        lemma_carved(size as nat, drawn, steps);
    }
    let ghost orders = drawn;
    let ghost done = grid@;
    grid.mark((1, 1), CellState::Open);
    grid.mark(goal, CellState::Open);
    let mut i: usize = 0;
    while i < size
        invariant
            i <= size,
            grid.wf(),
            grid@ == done,
            done.len() == size,
            is_maze(done),
            scripted ==> done == carved(size as nat, script),
            valid_script(orders),
            done == carved(size as nat, orders),
        decreases size - i,
    {
        proof {
            assert(on_ring(done, (i, 0)));
            assert(on_ring(done, (i, (size - 1) as usize)));
            assert(on_ring(done, (0, i)));
            assert(on_ring(done, ((size - 1) as usize, i)));
            lemma_with_same_state(done, (i, 0));
            lemma_with_same_state(done, (i, (size - 1) as usize));
            lemma_with_same_state(done, (0, i));
            lemma_with_same_state(done, ((size - 1) as usize, i));
        }
        grid.mark((i, 0), CellState::Wall);
        grid.mark((i, size - 1), CellState::Wall);
        grid.mark((0, i), CellState::Wall);
        grid.mark((size - 1, i), CellState::Wall);
        i += 1;
    }
    grid
}

} // verus!
