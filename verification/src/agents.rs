//! The multi-agent solver: agents that fork at every junction and race to the goal.

use crate::grid::{canonical_turn, count_of, in_bounds, neighbor_of, open_at};
use crate::grid::{lemma_count_bound, lemma_count_update, lemma_with_state};
use crate::grid::{square, state_at, with_state};
use crate::grid::{CellState, Cells, Direction, Grid, Position};
use crate::paths::{adjacent, connected, enterable, linked, route, simple_route};
use crate::paths::{lemma_extend_route, lemma_neighbor_adjacent, lemma_region_holds_path};
use crate::paths::{lemma_toward, toward};
use crate::solver::{marked_forward, SolveStatus};
use vstd::prelude::*;

verus! {

/// Marks where a search begins.
pub struct Player {
    pub position: Position,
}

impl Player {
    /// A player on the start cell, `(1, 1)`.
    pub fn new() -> (player: Player)
        ensures
            player.position == (1usize, 1usize),
    {
        Player { position: (1, 1) }
    }
}

/// One explorer of the multi-agent search: where it stands, every cell it has stood on,
/// in order, and its number.
pub struct Agent {
    pub position: Position,
    pub path: Vec<Position>,
    pub id: usize,
}

impl Agent {
    /// An agent made of the three values given; nothing is asked of them.
    pub fn new(position: Position, path: Vec<Position>, id: usize) -> (agent: Agent)
        ensures
            agent.position == position,
            agent.path == path,
            agent.id == id,
    {
        Agent { position, path, id }
    }

    /// The agent stands at the end of its path, which repeats no cell and moves by one
    /// step at a time.
    /// The invariant of the search.
    pub open spec fn wf(&self) -> bool {
        &&& self.path@.len() > 0
        &&& self.position == self.path@[self.path@.len() - 1]
        &&& self.path@.no_duplicates()
        &&& forall|i: int| 0 <= i < self.path@.len() - 1 ==> #[trigger] linked(self.path@, i)
    }
}

/// A move in direction `d` is legal for an agent at `p` with path `path`: it leads to an
/// open cell that the agent has not stood on.
pub open spec fn legal(cells: Cells, p: Position, path: Seq<Position>, d: Direction) -> bool {
    enterable(cells, p, d) && !path.contains(neighbor_of(p, d))
}

/// The legal moves among the first `turns` directions of the canonical order, in that
/// order.
pub open spec fn moves_upto(cells: Cells, p: Position, path: Seq<Position>, turns: int) -> Seq<
    Direction,
>
    decreases turns,
{
    if turns <= 0 {
        Seq::empty()
    } else if legal(cells, p, path, canonical_turn(turns - 1)) {
        moves_upto(cells, p, path, turns - 1).push(canonical_turn(turns - 1))
    } else {
        moves_upto(cells, p, path, turns - 1)
    }
}

/// The place of a direction in the canonical order.
pub open spec fn turn_of(d: Direction) -> int {
    match d {
        Direction::Up => 0,
        Direction::Right => 1,
        Direction::Down => 2,
        Direction::Left => 3,
    }
}

/// The moves found are the legal ones, each once, in rising canonical order.
pub proof fn lemma_moves(cells: Cells, p: Position, path: Seq<Position>, turns: int)
    requires
        0 <= turns <= 4,
    ensures
        forall|i: int|
            0 <= i < moves_upto(cells, p, path, turns).len() ==> legal(
                cells,
                p,
                path,
                #[trigger] moves_upto(cells, p, path, turns)[i],
            ) && turn_of(moves_upto(cells, p, path, turns)[i]) < turns,
        forall|i: int, j: int|
            0 <= i < j < moves_upto(cells, p, path, turns).len() ==> turn_of(
                #[trigger] moves_upto(cells, p, path, turns)[i],
            ) < turn_of(#[trigger] moves_upto(cells, p, path, turns)[j]),
        forall|d: Direction|
            legal(cells, p, path, d) && turn_of(d) < turns ==> #[trigger] moves_upto(
                cells,
                p,
                path,
                turns,
            ).contains(d),
    decreases turns,
{
    if turns > 0 {
        lemma_moves(cells, p, path, turns - 1);
        let before = moves_upto(cells, p, path, turns - 1);
        let now = moves_upto(cells, p, path, turns);
        assert forall|e: Direction| legal(cells, p, path, e) && turn_of(e) < turns implies now.contains(
            e,
        ) by {
            if turn_of(e) < turns - 1 {
                assert(before.contains(e));
                let i = choose|i: int| 0 <= i < before.len() && before[i] == e;
                assert(now[i] == e);
            } else {
                assert(now[now.len() - 1] == e);
            }
        }
    }
}

/// Says whether `c` is one of the cells of `path`.
pub fn on_path(path: &Vec<Position>, c: Position) -> (found: bool)
    ensures
        found == path@.contains(c),
{
    let mut i: usize = 0;
    while i < path.len()
        invariant
            i <= path.len(),
            forall|k: int| 0 <= k < i ==> path@[k] != c,
        decreases path.len() - i,
    {
        if path[i].0 == c.0 && path[i].1 == c.1 {
            return true;
        }
        i += 1;
    }
    false
}

/// The moves open to `agent`: the directions, in the canonical order Up, Right, Down,
/// Left, that lead to an open cell of `maze` on which the agent has not stood.
pub fn check_available_moves(maze: &Grid, agent: &Agent) -> (dirs: Vec<Direction>)
    requires
        maze.wf(),
    ensures
        dirs@ == moves_upto(maze@, agent.position, agent.path@, 4),
{
    let mut dirs: Vec<Direction> = Vec::new();
    let mut i: usize = 0;
    while i < 4
        invariant
            i <= 4,
            maze.wf(),
            dirs@ == moves_upto(maze@, agent.position, agent.path@, i as int),
        decreases 4 - i,
    {
        let d = Grid::turn(i);
        match maze.neighbor(agent.position, d) {
            Some(c) => {
                match maze.peek(c) {
                    CellState::Open => {
                        if !on_path(&agent.path, c) {
                            dirs.push(d);
                        }
                    },
                    _ => {},
                }
            },
            None => {},
        }
        i += 1;
    }
    dirs
}

/// A step in direction `d` from `p` stays within the range of `usize`.
pub open spec fn can_step(p: Position, d: Direction) -> bool {
    match d {
        Direction::Up => p.1 > 0,
        Direction::Right => p.0 < usize::MAX,
        Direction::Down => p.1 < usize::MAX,
        Direction::Left => p.0 > 0,
    }
}

/// Moves `agent` one step in direction `dir` and adds the new position to its path.
pub fn move_agent(agent: &mut Agent, dir: Direction)
    requires
        can_step(old(agent).position, dir),
    ensures
        final(agent).position == neighbor_of(old(agent).position, dir),
        final(agent).path@ == old(agent).path@.push(neighbor_of(old(agent).position, dir)),
        final(agent).id == old(agent).id,
        old(agent).wf() && !old(agent).path@.contains(neighbor_of(old(agent).position, dir))
            ==> final(agent).wf(),
{
    let ghost before = agent.path@;
    match dir {
        Direction::Up => {
            agent.position.1 -= 1;
        },
        Direction::Down => {
            agent.position.1 += 1;
        },
        Direction::Right => {
            agent.position.0 += 1;
        },
        Direction::Left => {
            agent.position.0 -= 1;
        },
    }
    agent.path.push(agent.position);
    proof {
        let after = agent.path@;
        if old(agent).wf() && !before.contains(agent.position) {
            assert forall|i: int| 0 <= i < after.len() - 1 implies #[trigger] linked(after, i) by {
                if i < before.len() - 1 {
                    assert(linked(before, i));
                }
            }
        }
    }
}

/// A copy of `path`.
fn copy_of(path: &Vec<Position>) -> (copy: Vec<Position>)
    ensures
        copy@ == path@,
{
    let mut copy: Vec<Position> = Vec::new();
    let mut i: usize = 0;
    while i < path.len()
        invariant
            i <= path.len(),
            copy@ == path@.subrange(0, i as int),
        decreases path.len() - i,
    {
        copy.push(path[i]);
        i += 1;
    }
    copy
}

/// An agent as a value of the model.
pub struct Walker {
    pub position: Position,
    pub path: Seq<Position>,
    pub id: int,
}

impl View for Agent {
    type V = Walker;

    open spec fn view(&self) -> Walker {
        Walker { position: self.position, path: self.path@, id: self.id as int }
    }
}

/// The agents as values of the model, in their order.
pub open spec fn walkers(agents: Seq<Agent>) -> Seq<Walker> {
    Seq::new(agents.len(), |i: int| agents[i]@)
}

/// The agent numbered `id` that has the path of `w` and one step more, in direction `d`.
pub open spec fn walked(w: Walker, d: Direction, id: int) -> Walker {
    Walker {
        position: neighbor_of(w.position, d),
        path: w.path.push(neighbor_of(w.position, d)),
        id,
    }
}

/// What the first `count` of the moves `dirs` of agent `w` make of the grid, and the new
/// agents that take them, numbered from `next_id` on.
pub open spec fn forks(cells: Cells, w: Walker, dirs: Seq<Direction>, next_id: int, count: int) -> (
    Cells,
    Seq<Walker>,
)
    decreases count,
{
    if count <= 0 {
        (cells, Seq::empty())
    } else {
        let before = forks(cells, w, dirs, next_id, count - 1);
        let child = walked(w, dirs[count - 1], next_id + count - 1);
        (with_state(before.0, child.position, CellState::Visited), before.1.push(child))
    }
}

/// A pass over the agents between two turns: the grid, the active agents, of which those
/// before place `at` have had their turn, the agents made in this pass, the next free
/// number, and the winning path, if an agent has won.
pub struct Pass {
    pub cells: Cells,
    pub agents: Seq<Walker>,
    pub at: int,
    pub fresh: Seq<Walker>,
    pub next_id: int,
    pub winner: Option<Seq<Position>>,
}

/// An agent has won, or every agent has had its turn.
pub open spec fn pass_over(s: Pass) -> bool {
    s.winner is Some || s.at >= s.agents.len()
}

/// The turn of the agent at place `at`. On the goal it wins, and all agents are
/// discarded. Without a legal move it marks its cell dead and leaves. Otherwise it steps
/// along the last of its legal moves, and each of the others is taken by a new agent; the
/// cells entered become visited.
pub open spec fn turn(s: Pass, goal: Position) -> Pass {
    let w = s.agents[s.at];
    let dirs = moves_upto(s.cells, w.position, w.path, 4);
    if w.position == goal {
        Pass {
            cells: s.cells,
            agents: Seq::empty(),
            at: 0,
            fresh: Seq::empty(),
            next_id: s.next_id,
            winner: Some(w.path),
        }
    } else if dirs.len() == 0 {
        Pass {
            cells: with_state(s.cells, w.position, CellState::Dead),
            agents: s.agents.remove(s.at),
            at: s.at,
            fresh: s.fresh,
            next_id: s.next_id,
            winner: None,
        }
    } else {
        let last = dirs.len() - 1;
        let forked = forks(s.cells, w, dirs, s.next_id, last);
        let moved = walked(w, dirs[last], w.id);
        Pass {
            cells: with_state(forked.0, moved.position, CellState::Visited),
            agents: s.agents.update(s.at, moved),
            at: s.at + 1,
            fresh: s.fresh + forked.1,
            next_id: s.next_id + last,
            winner: None,
        }
    }
}

/// The pass after `steps` turns, or after fewer if it was over before.
pub open spec fn pass_run(s: Pass, goal: Position, steps: nat) -> Pass
    decreases steps,
{
    if steps == 0 || pass_over(s) {
        s
    } else {
        pass_run(turn(s, goal), goal, (steps - 1) as nat)
    }
}

/// A multi-agent search between two ticks.
pub struct Hunt {
    pub cells: Cells,
    pub agents: Seq<Walker>,
    pub next_id: int,
    pub status: SolveStatus,
    pub winner: Option<Seq<Position>>,
}

/// The search before its first tick: agent 0 stands on the start, if that is an open
/// cell; if it is not, the search is exhausted.
pub open spec fn hunt_begin(initial: Cells, start: Position) -> Hunt {
    if open_at(initial, start) {
        Hunt {
            cells: initial,
            agents: seq![Walker { position: start, path: seq![start], id: 0 }],
            next_id: 1,
            status: SolveStatus::Searching,
            winner: None,
        }
    } else {
        Hunt {
            cells: initial,
            agents: Seq::empty(),
            next_id: 0,
            status: SolveStatus::Exhausted,
            winner: None,
        }
    }
}

/// The pass with which a tick begins.
pub open spec fn pass_begin(h: Hunt) -> Pass {
    Pass {
        cells: h.cells,
        agents: h.agents,
        at: 0,
        fresh: Seq::empty(),
        next_id: h.next_id,
        winner: None,
    }
}

/// The pass of a tick when every agent has had its turn or one has won.
pub open spec fn pass_end(h: Hunt, goal: Position) -> Pass {
    pass_run(
        pass_begin(h),
        goal,
        choose|steps: nat| pass_over(pass_run(pass_begin(h), goal, steps)),
    )
}

/// One tick of a search that is under way: a pass over the agents, after which the new
/// agents join behind the others.
pub open spec fn tick_of(h: Hunt, goal: Position) -> Hunt {
    let end = pass_end(h, goal);
    Hunt {
        cells: end.cells,
        agents: end.agents + end.fresh,
        next_id: end.next_id,
        status: if end.winner is Some {
            SolveStatus::Solved
        } else if (end.agents + end.fresh).len() == 0 {
            SolveStatus::Exhausted
        } else {
            SolveStatus::Searching
        },
        winner: end.winner,
    }
}

/// The search after `ticks` ticks, or after fewer if it has come to its end before.
pub open spec fn hunt_run(h: Hunt, goal: Position, ticks: nat) -> Hunt
    decreases ticks,
{
    if ticks == 0 || !(h.status is Searching) {
        h
    } else {
        hunt_run(tick_of(h, goal), goal, (ticks - 1) as nat)
    }
}

/// After `ticks` ticks the search from `start` for `goal` has come to its end.
pub open spec fn hunt_over(initial: Cells, start: Position, goal: Position, ticks: nat) -> bool {
    !(hunt_run(hunt_begin(initial, start), goal, ticks).status is Searching)
}

/// The search from `start` for `goal` at its end.
pub open spec fn hunt_end(initial: Cells, start: Position, goal: Position) -> Hunt {
    hunt_run(
        hunt_begin(initial, start),
        goal,
        choose|ticks: nat| hunt_over(initial, start, goal, ticks),
    )
}

/// One more turn allowed is one more turn taken, unless the pass is over.
pub proof fn lemma_pass_one_more(s: Pass, goal: Position, steps: nat)
    ensures
        pass_run(s, goal, steps + 1) == if pass_over(pass_run(s, goal, steps)) {
            pass_run(s, goal, steps)
        } else {
            turn(pass_run(s, goal, steps), goal)
        },
    decreases steps,
{
    if steps == 0 || pass_over(s) {
        if !pass_over(s) {
            assert(pass_run(turn(s, goal), goal, 0) == turn(s, goal));
        }
    } else {
        lemma_pass_one_more(turn(s, goal), goal, (steps - 1) as nat);
    }
}

/// A pass that is over stays as it is.
pub proof fn lemma_pass_rests(s: Pass, goal: Position, steps: nat, more: nat)
    requires
        pass_over(pass_run(s, goal, steps)),
        more >= steps,
    ensures
        pass_run(s, goal, more) == pass_run(s, goal, steps),
    decreases steps,
{
    if steps == 0 || pass_over(s) {
    } else {
        lemma_pass_rests(turn(s, goal), goal, (steps - 1) as nat, (more - 1) as nat);
    }
}

/// Whatever number of turns ends the pass, its end is the same.
pub proof fn lemma_pass_end(h: Hunt, goal: Position, steps: nat)
    requires
        pass_over(pass_run(pass_begin(h), goal, steps)),
    ensures
        pass_end(h, goal) == pass_run(pass_begin(h), goal, steps),
{
    let begin = pass_begin(h);
    let chosen = choose|steps: nat| pass_over(pass_run(pass_begin(h), goal, steps));
    if chosen >= steps {
        lemma_pass_rests(begin, goal, steps, chosen);
    } else {
        lemma_pass_rests(begin, goal, chosen, steps);
    }
}

/// One more tick allowed is one more tick made, unless the search is over.
pub proof fn lemma_hunt_one_more(h: Hunt, goal: Position, ticks: nat)
    ensures
        hunt_run(h, goal, ticks + 1) == if hunt_run(h, goal, ticks).status is Searching {
            tick_of(hunt_run(h, goal, ticks), goal)
        } else {
            hunt_run(h, goal, ticks)
        },
    decreases ticks,
{
    if ticks == 0 || !(h.status is Searching) {
        if h.status is Searching {
            assert(hunt_run(tick_of(h, goal), goal, 0) == tick_of(h, goal));
        }
    } else {
        lemma_hunt_one_more(tick_of(h, goal), goal, (ticks - 1) as nat);
    }
}

/// A search that is over stays as it is.
pub proof fn lemma_hunt_rests(h: Hunt, goal: Position, ticks: nat, more: nat)
    requires
        !(hunt_run(h, goal, ticks).status is Searching),
        more >= ticks,
    ensures
        hunt_run(h, goal, more) == hunt_run(h, goal, ticks),
    decreases ticks,
{
    if ticks == 0 || !(h.status is Searching) {
    } else {
        lemma_hunt_rests(tick_of(h, goal), goal, (ticks - 1) as nat, (more - 1) as nat);
    }
}

/// Whatever number of ticks brings the search to its end, the end is the same.
pub proof fn lemma_hunt_end(initial: Cells, start: Position, goal: Position, ticks: nat)
    requires
        hunt_over(initial, start, goal, ticks),
    ensures
        hunt_end(initial, start, goal) == hunt_run(hunt_begin(initial, start), goal, ticks),
{
    let begin = hunt_begin(initial, start);
    let chosen = choose|ticks: nat| hunt_over(initial, start, goal, ticks);
    if chosen >= ticks {
        lemma_hunt_rests(begin, goal, ticks, chosen);
    } else {
        lemma_hunt_rests(begin, goal, chosen, ticks);
    }
}

/// The pass of the model stands where the loop stands.
spec fn in_pass(
    p: Pass,
    cells: Cells,
    agents: Seq<Agent>,
    at: int,
    fresh: Seq<Agent>,
    next_id: int,
) -> bool {
    &&& p.cells == cells
    &&& p.agents == walkers(agents)
    &&& p.at == at
    &&& p.fresh == walkers(fresh)
    &&& p.next_id == next_id
    &&& p.winner is None
}

/// The agent stands at the end of its path, a simple route from `start` over cells that
/// were open in `initial`.
pub open spec fn on_route(initial: Cells, start: Position, a: Agent) -> bool {
    &&& a.wf()
    &&& simple_route(initial, start, a.position, a.path@)
}

/// What a multi-agent search from `start` for `goal` has made of the grid `initial`:
/// cells are only marked forward, only cells within reach of the start are marked, every
/// agent stands at the end of a simple route from the start, and the agents are held in
/// rising order of their numbers. While it searches there is an agent left and no winner;
/// when it is solved, the winning path is a simple route from the start to the goal; when
/// it is exhausted, no agent is left, no walk over open cells led from the start to the
/// goal, and every cell but the start to which one led is open no more.
pub open spec fn swarmed(
    initial: Cells,
    now: Cells,
    start: Position,
    goal: Position,
    agents: Seq<Agent>,
    status: SolveStatus,
    winner: Option<Seq<Position>>,
) -> bool {
    &&& square(initial)
    &&& 3 <= initial.len() <= usize::MAX
    &&& marked_forward(initial, now)
    &&& forall|p: Position|
        in_bounds(initial, p) && #[trigger] state_at(now, p) != state_at(initial, p) ==> connected(
            initial,
            start,
            p,
        )
    &&& forall|i: int| 0 <= i < agents.len() ==> on_route(initial, start, #[trigger] agents[i])
    &&& forall|i: int, j: int|
        0 <= i < j < agents.len() ==> (#[trigger] agents[i]).id < (#[trigger] agents[j]).id
    &&& match status {
        SolveStatus::Searching => agents.len() > 0 && winner is None,
        SolveStatus::Solved => {
            &&& agents.len() == 0
            &&& winner matches Some(w)
            &&& simple_route(initial, start, goal, w)
        },
        SolveStatus::Exhausted => {
            &&& agents.len() == 0
            &&& winner is None
            &&& !connected(initial, start, goal)
            &&& forall|p: Position| #[trigger]
                connected(initial, start, p) && p != start ==> !open_at(now, p)
        },
    }
}

/// An agent stands on `p`.
spec fn occupied(all: Seq<Agent>, p: Position) -> bool {
    exists|i: int| 0 <= i < all.len() && (#[trigger] all[i]).position == p
}

/// The search has come to `p`: the start, or a cell that was open and is so no more.
spec fn reached(initial: Cells, cells: Cells, start: Position, p: Position) -> bool {
    open_at(initial, p) && (!open_at(cells, p) || p == start)
}

/// Beside `p` no open cell is left but, at most, the start.
spec fn hemmed(cells: Cells, p: Position, start: Position) -> bool {
    forall|d: Direction| #[trigger] enterable(cells, p, d) ==> neighbor_of(p, d) == start
}

/// The cells of the agent's path after the first are open no more.
spec fn trodden(cells: Cells, a: Agent) -> bool {
    forall|k: int| 1 <= k < a.path@.len() ==> !open_at(cells, #[trigger] a.path@[k])
}

/// The numbers of the agents rise along their order and lie below the next free number.
spec fn rising_ids(all: Seq<Agent>, next_id: int) -> bool {
    &&& forall|i: int, j: int|
        0 <= i < j < all.len() ==> (#[trigger] all[i]).id < (#[trigger] all[j]).id
    &&& forall|i: int| 0 <= i < all.len() ==> (#[trigger] all[i]).id < next_id
}

/// The invariant of the multi-agent search.
spec fn swarming(
    initial: Cells,
    cells: Cells,
    start: Position,
    goal: Position,
    all: Seq<Agent>,
    next_id: int,
) -> bool {
    &&& square(initial)
    &&& 3 <= initial.len() <= usize::MAX
    &&& initial.len() * initial.len() < usize::MAX
    &&& open_at(initial, start)
    &&& marked_forward(initial, cells)
    &&& forall|p: Position|
        in_bounds(initial, p) && #[trigger] state_at(cells, p) != state_at(initial, p) ==> connected(
            initial,
            start,
            p,
        )
    &&& forall|i: int|
        0 <= i < all.len() ==> on_route(initial, start, #[trigger] all[i]) && trodden(cells, all[i])
    &&& rising_ids(all, next_id)
    &&& next_id + count_of(cells, CellState::Open) <= count_of(initial, CellState::Open) + 1
    &&& forall|p: Position| #[trigger]
        reached(initial, cells, start, p) ==> occupied(all, p) || hemmed(cells, p, start)
    &&& reached(initial, cells, start, goal) ==> occupied(all, goal)
}

/// Where no cell has become open, what was hemmed in or trodden stays so.
proof fn lemma_open_shrinks(cells: Cells, after: Cells, start: Position)
    requires
        after.len() == cells.len(),
        forall|q: Position| #[trigger] open_at(after, q) ==> open_at(cells, q),
    ensures
        forall|p: Position, d: Direction| #[trigger]
            enterable(after, p, d) ==> enterable(cells, p, d),
        forall|p: Position| #[trigger] hemmed(cells, p, start) ==> hemmed(after, p, start),
        forall|a: Agent| #[trigger] trodden(cells, a) ==> trodden(after, a),
{
    assert forall|p: Position, d: Direction| #[trigger] enterable(after, p, d) implies enterable(
        cells,
        p,
        d,
    ) by {}
}

/// What follows for the grid when an agent enters the open cell `t`.
proof fn lemma_claim(
    initial: Cells,
    cells: Cells,
    start: Position,
    goal: Position,
    all: Seq<Agent>,
    next_id: int,
    k: int,
    d: Direction,
    entering: Agent,
)
    requires
        swarming(initial, cells, start, goal, all, next_id),
        0 <= k < all.len(),
        legal(cells, all[k].position, all[k].path@, d),
        entering.position == neighbor_of(all[k].position, d),
        entering.path@ == all[k].path@.push(entering.position),
    ensures
        in_bounds(cells, entering.position),
        open_at(cells, entering.position),
        entering.position != start,
        with_state(cells, entering.position, CellState::Visited).len() == cells.len(),
        marked_forward(initial, with_state(cells, entering.position, CellState::Visited)),
        forall|p: Position|
            in_bounds(initial, p) && #[trigger] state_at(
                with_state(cells, entering.position, CellState::Visited),
                p,
            ) != state_at(initial, p) ==> connected(initial, start, p),
        on_route(initial, start, entering),
        trodden(with_state(cells, entering.position, CellState::Visited), entering),
        forall|q: Position| #[trigger]
            open_at(with_state(cells, entering.position, CellState::Visited), q) <==> (open_at(
                cells,
                q,
            ) && q != entering.position),
        count_of(with_state(cells, entering.position, CellState::Visited), CellState::Open) + 1
            == count_of(cells, CellState::Open),
        count_of(initial, CellState::Open) < usize::MAX,
{
    let parent = all[k];
    let c = parent.position;
    let t = entering.position;
    lemma_neighbor_adjacent(cells, c, d);
    lemma_with_state(cells, t, CellState::Visited);
    lemma_count_update(cells, t, CellState::Visited, CellState::Open);
    lemma_count_bound(initial, initial.len(), CellState::Open);
    lemma_extend_route(initial, start, c, parent.path@, t);
}

/// A new agent that takes a legal move of agent `k` keeps the invariant.
proof fn lemma_fork(
    initial: Cells,
    cells: Cells,
    start: Position,
    goal: Position,
    all: Seq<Agent>,
    next_id: int,
    k: int,
    d: Direction,
    child: Agent,
)
    requires
        swarming(initial, cells, start, goal, all, next_id),
        0 <= k < all.len(),
        legal(cells, all[k].position, all[k].path@, d),
        child.position == neighbor_of(all[k].position, d),
        child.path@ == all[k].path@.push(child.position),
        child.id == next_id,
    ensures
        swarming(
            initial,
            with_state(cells, child.position, CellState::Visited),
            start,
            goal,
            all.push(child),
            next_id + 1,
        ),
{
    let t = child.position;
    let after = with_state(cells, t, CellState::Visited);
    let more = all.push(child);
    lemma_claim(initial, cells, start, goal, all, next_id, k, d, child);
    lemma_open_shrinks(cells, after, start);
    assert forall|p: Position| #[trigger] reached(initial, after, start, p) implies occupied(
        more,
        p,
    ) || hemmed(after, p, start) by {
        if p == t {
            assert(more[all.len() as int].position == p);
        } else {
            assert(reached(initial, cells, start, p));
            if occupied(all, p) {
                let i = choose|i: int| 0 <= i < all.len() && (#[trigger] all[i]).position == p;
                assert(more[i].position == p);
            }
        }
    }
    if reached(initial, after, start, goal) {
        if goal == t {
            assert(more[all.len() as int].position == goal);
        } else {
            let i = choose|i: int| 0 <= i < all.len() && (#[trigger] all[i]).position == goal;
            assert(more[i].position == goal);
        }
    }
}

/// Agent `k` taking the last of its legal moves, after the others have been taken, keeps
/// the invariant.
proof fn lemma_move(
    initial: Cells,
    cells: Cells,
    start: Position,
    goal: Position,
    all: Seq<Agent>,
    next_id: int,
    k: int,
    d: Direction,
    moved: Agent,
)
    requires
        swarming(initial, cells, start, goal, all, next_id),
        0 <= k < all.len(),
        legal(cells, all[k].position, all[k].path@, d),
        moved.position == neighbor_of(all[k].position, d),
        moved.path@ == all[k].path@.push(moved.position),
        moved.id == all[k].id,
        all[k].position != goal,
        forall|e: Direction|
            e != d && #[trigger] enterable(cells, all[k].position, e) ==> neighbor_of(
                all[k].position,
                e,
            ) == start,
    ensures
        swarming(
            initial,
            with_state(cells, moved.position, CellState::Visited),
            start,
            goal,
            all.update(k, moved),
            next_id,
        ),
{
    let c = all[k].position;
    let t = moved.position;
    let after = with_state(cells, t, CellState::Visited);
    let next = all.update(k, moved);
    lemma_claim(initial, cells, start, goal, all, next_id, k, d, moved);
    lemma_open_shrinks(cells, after, start);
    assert forall|p: Position| #[trigger] reached(initial, after, start, p) implies occupied(
        next,
        p,
    ) || hemmed(after, p, start) by {
        if p == t {
            assert(next[k].position == p);
        } else if p != c {
            assert(reached(initial, cells, start, p));
            if occupied(all, p) {
                let i = choose|i: int| 0 <= i < all.len() && (#[trigger] all[i]).position == p;
                assert(next[i].position == p);
            }
        }
    }
    if reached(initial, after, start, goal) {
        if goal == t {
            assert(next[k].position == goal);
        } else {
            let i = choose|i: int| 0 <= i < all.len() && (#[trigger] all[i]).position == goal;
            assert(next[i].position == goal);
        }
    }
}

/// Agent `k`, away from the goal and without a legal move, marking its cell dead and
/// leaving keeps the invariant.
proof fn lemma_die(
    initial: Cells,
    cells: Cells,
    start: Position,
    goal: Position,
    all: Seq<Agent>,
    next_id: int,
    k: int,
)
    requires
        swarming(initial, cells, start, goal, all, next_id),
        0 <= k < all.len(),
        all[k].position != goal,
        forall|e: Direction| !#[trigger] legal(cells, all[k].position, all[k].path@, e),
    ensures
        in_bounds(cells, all[k].position),
        swarming(
            initial,
            with_state(cells, all[k].position, CellState::Dead),
            start,
            goal,
            all.remove(k),
            next_id,
        ),
        count_of(with_state(cells, all[k].position, CellState::Dead), CellState::Open) <= count_of(
            cells,
            CellState::Open,
        ),
{
    let gone = all[k];
    let c = gone.position;
    let after = with_state(cells, c, CellState::Dead);
    let rest = all.remove(k);
    lemma_with_state(cells, c, CellState::Dead);
    lemma_count_update(cells, c, CellState::Dead, CellState::Open);
    lemma_open_shrinks(cells, after, start);
    assert(rising_ids(rest, next_id)) by {
        assert forall|i: int, j: int| 0 <= i < j < rest.len() implies (#[trigger] rest[i]).id < (
        #[trigger] rest[j]).id by {}
        assert forall|i: int| 0 <= i < rest.len() implies (#[trigger] rest[i]).id < next_id by {}
    }
    assert(hemmed(after, c, start)) by {
        assert forall|e: Direction| #[trigger] enterable(after, c, e) implies neighbor_of(c, e)
            == start by {
            assert(!legal(cells, c, gone.path@, e));
        }
    }
    assert forall|p: Position| #[trigger] reached(initial, after, start, p) implies occupied(
        rest,
        p,
    ) || hemmed(after, p, start) by {
        if p != c {
            assert(reached(initial, cells, start, p));
            if occupied(all, p) {
                let i = choose|i: int| 0 <= i < all.len() && (#[trigger] all[i]).position == p;
                if i < k {
                    assert(rest[i].position == p);
                } else {
                    assert(rest[i - 1].position == p);
                }
            }
        }
    }
    if reached(initial, after, start, goal) {
        let i = choose|i: int| 0 <= i < all.len() && (#[trigger] all[i]).position == goal;
        if i < k {
            assert(rest[i].position == goal);
        } else {
            assert(rest[i - 1].position == goal);
        }
    }
}

/// When the last agent has gone, the goal was out of reach.
proof fn lemma_all_gone(initial: Cells, cells: Cells, start: Position, goal: Position, next_id: int)
    requires
        swarming(initial, cells, start, goal, Seq::<Agent>::empty(), next_id),
    ensures
        !connected(initial, start, goal),
        forall|p: Position| #[trigger]
            connected(initial, start, p) && p != start ==> !open_at(cells, p),
{
    let region = Set::new(|p: Position| reached(initial, cells, start, p));
    assert forall|p: Position, path: Seq<Position>| #[trigger]
        route(initial, start, p, path) implies reached(initial, cells, start, p) by {
        assert forall|a: Position, b: Position|
            #![trigger region.contains(a), adjacent(a, b)]
            region.contains(a) && adjacent(a, b) && open_at(initial, b) implies region.contains(
            b,
        ) by {
            lemma_toward(cells, a, b);
            if open_at(cells, b) {
                assert(enterable(cells, a, toward(a, b)));
            }
        }
        lemma_region_holds_path(initial, region, path, path.len() - 1);
    }
}

/// The invariant holds of the first agent on an open start in an unmarked grid.
proof fn lemma_first_agent(initial: Cells, start: Position, goal: Position, first: Agent)
    requires
        square(initial),
        3 <= initial.len() <= usize::MAX,
        initial.len() * initial.len() < usize::MAX,
        open_at(initial, start),
        first.position == start,
        first.path@ == seq![start],
        first.id == 0,
    ensures
        swarming(initial, initial, start, goal, seq![first], 1),
{
    let all = seq![first];
    assert(all[0] == first);
}

/// The cells of a winning path, if there is one.
pub open spec fn path_view(winner: Option<Vec<Position>>) -> Option<Seq<Position>> {
    match winner {
        Some(w) => Some(w@),
        None => None,
    }
}

/// A multi-agent search that owns its grid and advances by one tick at a time, so that a
/// caller can look at the grid and the agents between the ticks.
pub struct Swarm {
    grid: Grid,
    agents: Vec<Agent>,
    next_id: usize,
    start: Position,
    goal: Position,
    status: SolveStatus,
    winner: Option<Vec<Position>>,
    initial: Ghost<Cells>,
}

impl Swarm {
    /// The grid as the search has marked it so far.
    pub closed spec fn cells(&self) -> Cells {
        self.grid@
    }

    /// The grid as the search found it.
    pub closed spec fn initial(&self) -> Cells {
        self.initial@
    }

    /// The cell from which the search set out.
    pub closed spec fn origin(&self) -> Position {
        self.start
    }

    /// The cell that the search is for.
    pub closed spec fn target(&self) -> Position {
        self.goal
    }

    /// The active agents, in the order in which a tick takes them.
    pub closed spec fn crowd(&self) -> Seq<Agent> {
        self.agents@
    }

    /// How far the search has come.
    pub closed spec fn state(&self) -> SolveStatus {
        self.status
    }

    /// The path of the agent that has won, if one has.
    pub closed spec fn winning(&self) -> Option<Seq<Position>> {
        path_view(self.winner)
    }

    /// The number that the next new agent gets.
    pub closed spec fn next_number(&self) -> int {
        self.next_id as int
    }

    /// The search as a value of the model.
    pub open spec fn model(&self) -> Hunt {
        Hunt {
            cells: self.cells(),
            agents: walkers(self.crowd()),
            next_id: self.next_number(),
            status: self.state(),
            winner: self.winning(),
        }
    }

    /// What the search keeps to itself: the grid is well formed, and the bookkeeping of a
    /// search under way is sound.
    pub closed spec fn inner(&self) -> bool {
        &&& self.grid.wf()
        &&& self.status is Searching ==> swarming(
            self.initial@,
            self.grid@,
            self.start,
            self.goal,
            self.agents@,
            self.next_id as int,
        )
    }

    pub open spec fn wf(&self) -> bool {
        &&& self.inner()
        &&& swarmed(
            self.initial(),
            self.cells(),
            self.origin(),
            self.target(),
            self.crowd(),
            self.state(),
            self.winning(),
        )
    }

    /// An upper bound on the turns that agents can still take: one for each open cell and
    /// one for each agent.
    pub open spec fn budget(&self) -> nat {
        count_of(self.cells(), CellState::Open) + self.crowd().len()
    }

    /// Takes the grid and puts the first agent, number 0, on the start, if the start is an
    /// open cell of the grid; if it is not, the search is exhausted at once.
    pub fn new(grid: Grid, start: Position, goal: Position) -> (swarm: Swarm)
        requires
            grid.wf(),
        ensures
            swarm.wf(),
            swarm.initial() == grid@,
            swarm.cells() == grid@,
            swarm.origin() == start,
            swarm.target() == goal,
            swarm.model() == hunt_begin(grid@, start),
    {
        let ghost initial = grid@;
        proof {
            grid.lemma_wf();
        }
        let n = grid.size();
        let mut agents: Vec<Agent> = Vec::new();
        let mut status = SolveStatus::Exhausted;
        let mut next_id: usize = 0;
        let mut begun = false;
        if start.0 < n && start.1 < n {
            match grid.peek(start) {
                CellState::Open => {
                    begun = true;
                },
                _ => {},
            }
        }
        if begun {
            let mut path: Vec<Position> = Vec::new();
            path.push(start);
            let first = Agent::new(start, path, 0);
            proof {
                lemma_first_agent(initial, start, goal, first);
            }
            agents.push(first);
            next_id = 1;
            status = SolveStatus::Searching;
            proof {
                assert(walkers(agents@) =~= seq![
                    Walker { position: start, path: seq![start], id: 0 },
                ]);
            }
        } else {
            proof {
                assert(walkers(agents@) =~= Seq::<Walker>::empty());
            }
        }
        Swarm { grid, agents, next_id, start, goal, status, winner: None, initial: Ghost(initial) }
    }

    /// How far the search has come.
    pub fn status(&self) -> (status: SolveStatus)
        ensures
            status == self.state(),
    {
        self.status
    }

    /// The grid, for a look at the markings.
    pub fn grid(&self) -> (grid: &Grid)
        requires
            self.wf(),
        ensures
            grid.wf(),
            grid@ == self.cells(),
    {
        &self.grid
    }

    /// The active agents.
    pub fn agents(&self) -> (agents: &Vec<Agent>)
        ensures
            agents@ == self.crowd(),
    {
        &self.agents
    }

    /// The winning path, once there is one.
    pub fn winner(&self) -> (winner: &Option<Vec<Position>>)
        ensures
            path_view(*winner) == self.winning(),
    {
        &self.winner
    }

    /// Ends the search and hands back the grid and the winning path, if there is one.
    pub fn finish(self) -> (parts: (Grid, Option<Vec<Position>>))
        requires
            self.wf(),
        ensures
            parts.0.wf(),
            parts.0@ == self.cells(),
            path_view(parts.1) == self.winning(),
    {
        (self.grid, self.winner)
    }

    /// One pass over the active agents, in their order. An agent that stands on the goal
    /// wins: its path is recorded, all agents are discarded and the search is solved. An
    /// agent without a legal move marks its cell dead and leaves. Any other agent steps
    /// along the last of its legal moves; for each of the others a new agent with a fresh
    /// number takes the agent's path so far and that step. Every cell entered becomes
    /// visited at once, so no later agent of the pass can enter it. The new agents join
    /// behind the others when the pass is over; when no agent is left then, the search is
    /// exhausted. A search that is solved or exhausted stays as it is.
    pub fn tick(&mut self) -> (status: SolveStatus)
        requires
            old(self).wf(),
        ensures
            final(self).wf(),
            status == final(self).state(),
            final(self).initial() == old(self).initial(),
            final(self).origin() == old(self).origin(),
            final(self).target() == old(self).target(),
            final(self).model() == hunt_run(old(self).model(), old(self).target(), 1),
            old(self).state() is Searching ==> final(self).budget() < old(self).budget(),
    {
        let ghost hunt = old(self).model();
        proof {
            assert(hunt_run(tick_of(hunt, self.goal), self.goal, 0) == tick_of(hunt, self.goal));
        }
        match self.status {
            SolveStatus::Searching => {},
            _ => {
                return self.status;
            },
        }
        let ghost initial = self.initial@;
        let ghost budget0 = old(self).budget();
        let ghost begin = pass_begin(hunt);
        let start = self.start;
        let goal = self.goal;
        let mut fresh: Vec<Agent> = Vec::new();
        let mut i: usize = 0;
        let ghost mut done: nat = 0;
        proof {
            assert(walkers(fresh@) =~= Seq::<Walker>::empty());
            self.grid.lemma_wf();
        }
        while i < self.agents.len()
            invariant
                self.grid.wf(),
                old(self).initial@ == initial,
                old(self).start == start,
                old(self).goal == goal,
                old(self).status is Searching,
                budget0 == old(self).budget(),
                hunt == old(self).model(),
                begin == pass_begin(hunt),
                self.initial@ == initial,
                self.start == start,
                self.goal == goal,
                self.status is Searching,
                self.winner is None,
                i <= self.agents@.len(),
                swarming(
                    initial,
                    self.grid@,
                    start,
                    goal,
                    self.agents@ + fresh@,
                    self.next_id as int,
                ),
                in_pass(
                    pass_run(begin, goal, done),
                    self.grid@,
                    self.agents@,
                    i as int,
                    fresh@,
                    self.next_id as int,
                ),
                count_of(self.grid@, CellState::Open) + self.agents@.len() + fresh@.len() + done
                    <= budget0,
                done >= 1 || (i == 0 && self.agents@.len() > 0),
            decreases self.agents@.len() - i,
        {
            let ghost cells = self.grid@;
            let ghost all = self.agents@ + fresh@;
            let ghost me = self.agents@[i as int];
            let ghost crowd = self.agents@;
            let ghost fresh0 = fresh@;
            let ghost next0 = self.next_id as int;
            proof {
                lemma_pass_one_more(begin, goal, done);
            }
            assert(all[i as int] == me);
            let here = self.agents[i].position;
            if here.0 == goal.0 && here.1 == goal.1 {
                let won = copy_of(&self.agents[i].path);
                proof {
                    lemma_pass_end(hunt, goal, done + 1);
                }
                self.winner = Some(won);
                self.agents.clear();
                self.status = SolveStatus::Solved;
                proof {
                    let end = pass_end(hunt, goal);
                    assert(hunt_run(tick_of(hunt, goal), goal, 0) == tick_of(hunt, goal));
                    assert(walkers(self.agents@) =~= end.agents + end.fresh);
                }
                return SolveStatus::Solved;
            }
            let dirs = check_available_moves(&self.grid, &self.agents[i]);
            proof {
                lemma_moves(cells, here, me.path@, 4);
            }
            if dirs.len() == 0 {
                proof {
                    assert forall|e: Direction| !#[trigger] legal(cells, here, me.path@, e) by {
                        if legal(cells, here, me.path@, e) {
                            assert(dirs@.contains(e));
                        }
                    }
                    lemma_die(initial, cells, start, goal, all, self.next_id as int, i as int);
                }
                self.grid.mark(here, CellState::Dead);
                self.agents.remove(i);
                proof {
                    assert(self.agents@ + fresh@ =~= all.remove(i as int));
                    assert(walkers(self.agents@) =~= walkers(crowd).remove(i as int));
                    done = done + 1;
                }
            } else {
                let last = dirs.len() - 1;
                let mut j: usize = 0;
                proof {
                    assert forall|e: Direction| #[trigger]
                        enterable(cells, here, e) implies neighbor_of(here, e) == start || exists|
                        m: int,
                    |
                        0 <= m <= last && dirs@[m] == e by {
                        if legal(cells, here, me.path@, e) {
                            assert(dirs@.contains(e));
                        }
                    }
                }
                while j < last
                    invariant
                        j <= last,
                        last == dirs@.len() - 1,
                        self.grid.wf(),
                        self.grid@.len() <= usize::MAX,
                        self.initial@ == initial,
                        self.start == start,
                        self.goal == goal,
                        self.status is Searching,
                        self.winner is None,
                        i < self.agents@.len(),
                        self.agents@ == crowd,
                        self.agents@[i as int] == me,
                        here == me.position,
                        swarming(
                            initial,
                            self.grid@,
                            start,
                            goal,
                            self.agents@ + fresh@,
                            self.next_id as int,
                        ),
                        forall|m: int|
                            j <= m <= last ==> legal(self.grid@, here, me.path@, #[trigger] dirs@[m]),
                        forall|a: int, b: int|
                            0 <= a < b < dirs@.len() ==> turn_of(#[trigger] dirs@[a]) < turn_of(
                                #[trigger] dirs@[b],
                            ),
                        forall|e: Direction| #[trigger]
                            enterable(self.grid@, here, e) ==> neighbor_of(here, e) == start
                                || exists|m: int| j <= m <= last && dirs@[m] == e,
                        self.next_id == next0 + j,
                        forks(cells, me@, dirs@, next0, j as int).0 == self.grid@,
                        walkers(fresh@) == walkers(fresh0) + forks(
                            cells,
                            me@,
                            dirs@,
                            next0,
                            j as int,
                        ).1,
                        count_of(self.grid@, CellState::Open) + self.agents@.len() + fresh@.len()
                            + done <= budget0,
                        done >= 1 || (i == 0 && self.agents@.len() > 0),
                    decreases last - j,
                {
                    let ghost cells_j = self.grid@;
                    let ghost all_j = self.agents@ + fresh@;
                    let ghost fresh_j = fresh@;
                    let d = dirs[j];
                    let mut child = Agent::new(here, copy_of(&self.agents[i].path), self.next_id);
                    move_agent(&mut child, d);
                    let ghost kid = child;
                    proof {
                        lemma_claim(
                            initial,
                            cells_j,
                            start,
                            goal,
                            all_j,
                            self.next_id as int,
                            i as int,
                            d,
                            kid,
                        );
                        lemma_fork(
                            initial,
                            cells_j,
                            start,
                            goal,
                            all_j,
                            self.next_id as int,
                            i as int,
                            d,
                            kid,
                        );
                    }
                    self.grid.mark(child.position, CellState::Visited);
                    self.next_id = self.next_id + 1;
                    fresh.push(child);
                    proof {
                        let after = self.grid@;
                        assert forall|e: Direction| #[trigger]
                            enterable(after, here, e) implies neighbor_of(here, e) == start
                            || exists|m: int| j + 1 <= m <= last && dirs@[m] == e by {
                            assert(enterable(cells_j, here, e));
                        }
                        assert(walkers(fresh@) =~= walkers(fresh_j).push(kid@));
                    }
                    j += 1;
                }
                let ghost cells_x = self.grid@;
                let ghost all_x = self.agents@ + fresh@;
                let d = dirs[last];
                let mut moved = Agent::new(here, copy_of(&self.agents[i].path), self.agents[i].id);
                move_agent(&mut moved, d);
                let ghost mover = moved;
                proof {
                    lemma_claim(
                        initial,
                        cells_x,
                        start,
                        goal,
                        all_x,
                        self.next_id as int,
                        i as int,
                        d,
                        mover,
                    );
                    lemma_move(
                        initial,
                        cells_x,
                        start,
                        goal,
                        all_x,
                        self.next_id as int,
                        i as int,
                        d,
                        mover,
                    );
                }
                self.grid.mark(moved.position, CellState::Visited);
                self.agents[i] = moved;
                proof {
                    assert(self.agents@ + fresh@ =~= all_x.update(i as int, mover));
                    assert(walkers(self.agents@) =~= walkers(crowd).update(i as int, mover@));
                    done = done + 1;
                }
                i += 1;
            }
        }
        let ghost crowd = self.agents@;
        let ghost made = fresh@;
        proof {
            lemma_pass_end(hunt, goal, done);
        }
        self.agents.append(&mut fresh);
        proof {
            assert(walkers(self.agents@) =~= walkers(crowd) + walkers(made));
        }
        if self.agents.len() == 0 {
            proof {
                lemma_all_gone(initial, self.grid@, start, goal, self.next_id as int);
            }
            self.status = SolveStatus::Exhausted;
        }
        self.status
    }
}

/// Lets agents explore `grid` from `start`, forking at every junction, until one of them
/// stands on `goal`, and returns the path of that agent; or `None`, when the last agent
/// has run into a dead end. There is a winner exactly when a walk over open cells leads
/// from `start` to `goal`. A start outside the grid or on a cell that is not open gives
/// `None` at once, and nothing is marked.
pub fn solve_multi_agent(grid: &mut Grid, start: Position, goal: Position) -> (winner: Option<
    Vec<Position>,
>)
    requires
        old(grid).wf(),
    ensures
        final(grid).wf(),
        winner is Some <==> connected(old(grid)@, start, goal),
        winner matches Some(w) ==> simple_route(old(grid)@, start, goal, w@),
        path_view(winner) == hunt_end(old(grid)@, start, goal).winner,
        final(grid)@ == hunt_end(old(grid)@, start, goal).cells,
        marked_forward(old(grid)@, final(grid)@),
        forall|p: Position|
            in_bounds(old(grid)@, p) && #[trigger] state_at(final(grid)@, p) != state_at(
                old(grid)@,
                p,
            ) ==> connected(old(grid)@, start, p),
{
    let mut held = Grid::new(3);
    proof {
        old(grid).lemma_wf();
    }
    core::mem::swap(grid, &mut held);
    let mut swarm = Swarm::new(held, start, goal);
    let ghost begin = hunt_begin(old(grid)@, start);
    let ghost mut ticks: nat = 0;
    loop
        invariant
            swarm.wf(),
            swarm.initial() == old(grid)@,
            swarm.origin() == start,
            swarm.target() == goal,
            begin == hunt_begin(old(grid)@, start),
            swarm.model() == hunt_run(begin, goal, ticks),
        ensures
            !(swarm.state() is Searching),
        decreases swarm.budget(),
    {
        match swarm.status() {
            SolveStatus::Searching => {
                proof {
                    lemma_hunt_one_more(begin, goal, ticks);
                    assert(hunt_run(tick_of(swarm.model(), goal), goal, 0) == tick_of(
                        swarm.model(),
                        goal,
                    ));
                    ticks = ticks + 1;
                }
                swarm.tick();
            },
            _ => {
                break ;
            },
        }
    }
    proof {
        lemma_hunt_end(old(grid)@, start, goal, ticks);
    }
    let parts = swarm.finish();
    let mut done = parts.0;
    core::mem::swap(grid, &mut done);
    parts.1
}

} // verus!
