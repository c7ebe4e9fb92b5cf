use maze_search::agents::{check_available_moves, move_agent, solve_multi_agent};
use maze_search::agents::{Agent, Player, Swarm};
use maze_search::generator::{generate_maze, OrderSource};
use maze_search::grid::{CellState, Direction, Grid};
use maze_search::solver::{SolveStatus, Solver};
use rand::rngs::StdRng;
use rand::SeedableRng;

fn seeded_maze(size: usize, seed: u64) -> Grid {
    let mut source = OrderSource::random(StdRng::seed_from_u64(seed));
    generate_maze(size, &mut source)
}

/// A grid of side 5 whose nine inner cells are open, but for the cells listed.
fn room(walls: &[(usize, usize)]) -> Grid {
    let mut grid = Grid::new(5);
    for y in 1..4 {
        for x in 1..4 {
            if !walls.contains(&(x, y)) {
                grid.set(x, y, CellState::Open).unwrap();
            }
        }
    }
    grid
}

fn snapshot(grid: &Grid) -> Vec<Vec<CellState>> {
    let n = grid.size();
    (0..n).map(|y| (0..n).map(|x| grid.get(x, y).unwrap()).collect()).collect()
}

fn adjacent(a: (usize, usize), b: (usize, usize)) -> bool {
    (a.0 == b.0 && (a.1 + 1 == b.1 || b.1 + 1 == a.1))
        || (a.1 == b.1 && (a.0 + 1 == b.0 || b.0 + 1 == a.0))
}

fn standing(swarm: &Swarm) -> Vec<(usize, (usize, usize))> {
    swarm.agents().iter().map(|a| (a.id, a.position)).collect()
}

#[test]
fn player_starts_at_one_one() {
    assert_eq!(Player::new().position, (1, 1));
}

#[test]
fn agent_new_keeps_what_it_is_given() {
    let agent = Agent::new((3, 4), vec![(1, 4), (2, 4), (3, 4)], 17);
    assert_eq!(agent.position, (3, 4));
    assert_eq!(agent.path, vec![(1, 4), (2, 4), (3, 4)]);
    assert_eq!(agent.id, 17);
}

#[test]
fn available_moves_come_up_right_down_left() {
    let grid = room(&[]);
    let agent = Agent::new((2, 2), vec![(2, 2)], 0);
    assert_eq!(
        check_available_moves(&grid, &agent),
        vec![Direction::Up, Direction::Right, Direction::Down, Direction::Left]
    );
}

#[test]
fn available_moves_leave_out_walls_and_marked_cells() {
    let mut grid = room(&[(2, 1)]);
    grid.set(3, 2, CellState::Visited).unwrap();
    grid.set(2, 3, CellState::Dead).unwrap();
    let agent = Agent::new((2, 2), vec![(2, 2)], 0);
    assert_eq!(check_available_moves(&grid, &agent), vec![Direction::Left]);
}

#[test]
fn available_moves_leave_out_the_agents_own_path() {
    let grid = room(&[]);
    let agent = Agent::new((2, 2), vec![(1, 1), (1, 2), (2, 2)], 0);
    assert_eq!(
        check_available_moves(&grid, &agent),
        vec![Direction::Up, Direction::Right, Direction::Down]
    );
}

#[test]
fn available_moves_in_a_corner_and_at_a_dead_end() {
    let grid = room(&[]);
    let corner = Agent::new((1, 1), vec![(1, 1)], 0);
    assert_eq!(check_available_moves(&grid, &corner), vec![Direction::Right, Direction::Down]);
    let walled = room(&[(2, 1), (1, 2)]);
    assert_eq!(check_available_moves(&walled, &corner), Vec::<Direction>::new());
}

#[test]
fn available_moves_of_an_agent_on_the_rim_or_outside() {
    let mut grid = Grid::new(3);
    grid.set(0, 1, CellState::Open).unwrap();
    grid.set(1, 0, CellState::Open).unwrap();
    grid.set(2, 1, CellState::Open).unwrap();
    let at_origin = Agent::new((0, 0), vec![(0, 0)], 0);
    assert_eq!(check_available_moves(&grid, &at_origin), vec![Direction::Right, Direction::Down]);
    let outside = Agent::new((3, 1), vec![(3, 1)], 0);
    assert_eq!(check_available_moves(&grid, &outside), vec![Direction::Left]);
    let far = Agent::new((usize::MAX, usize::MAX), vec![], 0);
    assert_eq!(check_available_moves(&grid, &far), Vec::<Direction>::new());
}

#[test]
fn move_agent_steps_and_records() {
    let mut agent = Agent::new((2, 2), vec![(2, 2)], 5);
    move_agent(&mut agent, Direction::Up);
    assert_eq!(agent.position, (2, 1));
    move_agent(&mut agent, Direction::Right);
    assert_eq!(agent.position, (3, 1));
    move_agent(&mut agent, Direction::Down);
    assert_eq!(agent.position, (3, 2));
    move_agent(&mut agent, Direction::Left);
    assert_eq!(agent.position, (2, 2));
    assert_eq!(agent.path, vec![(2, 2), (2, 1), (3, 1), (3, 2), (2, 2)]);
    assert_eq!(agent.id, 5);
}

#[test]
fn first_tick_forks_at_the_start() {
    let mut swarm = Swarm::new(room(&[]), (1, 1), (3, 3));
    assert_eq!(standing(&swarm), vec![(0, (1, 1))]);
    assert_eq!(swarm.tick(), SolveStatus::Searching);
    // Right and down are open: the agent takes the last, a new agent the other.
    assert_eq!(standing(&swarm), vec![(0, (1, 2)), (1, (2, 1))]);
    assert_eq!(swarm.agents()[0].path, vec![(1, 1), (1, 2)]);
    assert_eq!(swarm.agents()[1].path, vec![(1, 1), (2, 1)]);
    assert_eq!(swarm.grid().get(1, 1), Ok(CellState::Open));
    assert_eq!(swarm.grid().get(1, 2), Ok(CellState::Visited));
    assert_eq!(swarm.grid().get(2, 1), Ok(CellState::Visited));
}

#[test]
fn a_cell_entered_earlier_in_the_tick_is_taken() {
    let mut swarm = Swarm::new(room(&[]), (1, 1), (3, 3));
    swarm.tick();
    assert_eq!(swarm.tick(), SolveStatus::Searching);
    // Agent 0 at (1,2) forks to (2,2) and steps to (1,3); agent 1 at (2,1) then finds (2,2)
    // taken and can only go right.
    assert_eq!(standing(&swarm), vec![(0, (1, 3)), (1, (3, 1)), (2, (2, 2))]);
    assert_eq!(swarm.agents()[2].path, vec![(1, 1), (1, 2), (2, 2)]);
}

#[test]
fn open_room_is_won_in_the_fifth_tick() {
    let mut swarm = Swarm::new(room(&[]), (1, 1), (3, 3));
    let mut ticks = 0;
    while swarm.status() == SolveStatus::Searching {
        swarm.tick();
        ticks += 1;
    }
    assert_eq!(swarm.status(), SolveStatus::Solved);
    assert_eq!(ticks, 5);
    assert!(swarm.agents().is_empty());
    let path = swarm.winner().clone().unwrap();
    assert_eq!(path.len(), 5);
    assert_eq!(path[0], (1, 1));
    assert_eq!(path[4], (3, 3));
}

#[test]
fn an_agent_without_a_move_marks_its_cell_dead_and_leaves() {
    let mut swarm = Swarm::new(room(&[(2, 1), (1, 2)]), (1, 1), (3, 3));
    assert_eq!(swarm.status(), SolveStatus::Searching);
    assert_eq!(swarm.tick(), SolveStatus::Exhausted);
    assert!(swarm.agents().is_empty());
    assert_eq!(swarm.winner(), &None);
    assert_eq!(swarm.grid().get(1, 1), Ok(CellState::Dead));
}

#[test]
fn numbers_of_new_agents_are_never_given_twice() {
    let mut swarm = Swarm::new(seeded_maze(31, 6), (1, 1), (29, 29));
    let mut seen: Vec<usize> = vec![0];
    while swarm.status() == SolveStatus::Searching {
        swarm.tick();
        let ids: Vec<usize> = swarm.agents().iter().map(|a| a.id).collect();
        for pair in ids.windows(2) {
            assert!(pair[0] < pair[1]);
        }
        for id in ids {
            if !seen.contains(&id) {
                assert!(id > *seen.iter().max().unwrap());
                seen.push(id);
            }
        }
    }
    assert_eq!(swarm.status(), SolveStatus::Solved);
}

#[test]
fn agents_never_repeat_a_cell() {
    let mut swarm = Swarm::new(seeded_maze(21, 9), (1, 1), (19, 19));
    while swarm.status() == SolveStatus::Searching {
        swarm.tick();
        for agent in swarm.agents() {
            assert_eq!(agent.position, agent.path[agent.path.len() - 1]);
            for i in 0..agent.path.len() {
                for j in 0..i {
                    assert_ne!(agent.path[i], agent.path[j]);
                }
                if i > 0 {
                    assert!(adjacent(agent.path[i - 1], agent.path[i]));
                }
            }
        }
    }
}

#[test]
fn generated_maze_has_a_winner() {
    for &(size, seed) in &[(5usize, 1u64), (9, 2), (21, 3), (49, 4)] {
        let mut grid = seeded_maze(size, seed);
        let before = snapshot(&grid);
        let path = solve_multi_agent(&mut grid, (1, 1), (size - 2, size - 2)).unwrap();
        assert_eq!(path[0], (1, 1));
        assert_eq!(path[path.len() - 1], (size - 2, size - 2));
        for i in 0..path.len() {
            assert_eq!(before[path[i].1][path[i].0], CellState::Open);
            for j in 0..i {
                assert_ne!(path[i], path[j]);
            }
            if i > 0 {
                assert!(adjacent(path[i - 1], path[i]));
            }
        }
    }
}

#[test]
fn both_solvers_find_the_one_way_through_a_maze() {
    for seed in 0u64..6 {
        let mut grid = seeded_maze(25, seed);
        let winner = solve_multi_agent(&mut grid, (1, 1), (23, 23)).unwrap();
        let mut solver = Solver::new(seeded_maze(25, seed), (1, 1));
        while solver.status() == SolveStatus::Searching {
            solver.step();
        }
        assert_eq!(solver.trail(), &winner);
    }
}

#[test]
fn goal_behind_a_wall_has_no_winner() {
    let mut grid = room(&[(1, 2), (2, 2), (3, 2)]);
    assert_eq!(solve_multi_agent(&mut grid, (1, 1), (3, 3)), None);
    assert_eq!(grid.get(1, 1), Ok(CellState::Open));
    assert_eq!(grid.get(2, 1), Ok(CellState::Visited));
    assert_eq!(grid.get(3, 1), Ok(CellState::Dead));
    for cell in [(1, 3), (2, 3), (3, 3)] {
        assert_eq!(grid.get(cell.0, cell.1), Ok(CellState::Open));
    }
}

#[test]
fn search_for_a_wall_has_no_winner() {
    let mut grid = room(&[]);
    assert_eq!(solve_multi_agent(&mut grid, (1, 1), (4, 4)), None);
    assert_eq!(solve_multi_agent(&mut room(&[]), (1, 1), (9, 9)), None);
}

#[test]
fn search_from_a_wall_or_from_outside_has_no_winner() {
    let mut grid = room(&[]);
    let before = snapshot(&grid);
    assert_eq!(solve_multi_agent(&mut grid, (0, 1), (3, 3)), None);
    assert_eq!(solve_multi_agent(&mut grid, (5, 5), (3, 3)), None);
    assert_eq!(snapshot(&grid), before);
    let swarm = Swarm::new(room(&[]), (0, 0), (3, 3));
    assert_eq!(swarm.status(), SolveStatus::Exhausted);
    assert!(swarm.agents().is_empty());
}

#[test]
fn start_on_the_goal_wins_at_once() {
    let mut grid = room(&[]);
    let before = snapshot(&grid);
    assert_eq!(solve_multi_agent(&mut grid, (2, 2), (2, 2)), Some(vec![(2, 2)]));
    assert_eq!(snapshot(&grid), before);
}

#[test]
fn finished_swarm_stays_as_it_is() {
    let mut swarm = Swarm::new(room(&[]), (1, 1), (3, 3));
    while swarm.status() == SolveStatus::Searching {
        swarm.tick();
    }
    let grid = snapshot(swarm.grid());
    let path = swarm.winner().clone();
    assert_eq!(swarm.tick(), SolveStatus::Solved);
    assert_eq!(snapshot(swarm.grid()), grid);
    assert_eq!(swarm.winner(), &path);
    let parts = swarm.finish();
    assert_eq!(snapshot(&parts.0), grid);
    assert_eq!(parts.1, path);
}

#[test]
fn every_tick_takes_from_the_open_cells_or_the_agents() {
    let mut swarm = Swarm::new(seeded_maze(21, 10), (1, 1), (19, 19));
    let open = |swarm: &Swarm| {
        snapshot(swarm.grid()).iter().flatten().filter(|&&s| s == CellState::Open).count()
    };
    let mut budget = open(&swarm) + swarm.agents().len();
    while swarm.status() == SolveStatus::Searching {
        swarm.tick();
        let now = open(&swarm) + swarm.agents().len();
        assert!(now < budget);
        budget = now;
    }
}
