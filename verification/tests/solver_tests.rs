use maze_search::generator::{generate_maze, OrderSource};
use maze_search::grid::{CellState, Grid};
use maze_search::solver::{solve_single_agent, SolveStatus, Solver};
use rand::rngs::StdRng;
use rand::SeedableRng;

fn seeded_maze(size: usize, seed: u64) -> Grid {
    let mut source = OrderSource::random(StdRng::seed_from_u64(seed));
    generate_maze(size, &mut source)
}

/// A grid of side 5 whose nine inner cells are open, but for the cells listed.
fn room(walls: &[(usize, usize)]) -> Grid {
    let mut grid = Grid::new(5);
    for y in 1..4 {
        for x in 1..4 {
            if !walls.contains(&(x, y)) {
                grid.set(x, y, CellState::Open).unwrap();
            }
        }
    }
    grid
}

fn snapshot(grid: &Grid) -> Vec<Vec<CellState>> {
    let n = grid.size();
    (0..n).map(|y| (0..n).map(|x| grid.get(x, y).unwrap()).collect()).collect()
}

fn count(grid: &Grid, state: CellState) -> usize {
    snapshot(grid).iter().flatten().filter(|&&s| s == state).count()
}

fn adjacent(a: (usize, usize), b: (usize, usize)) -> bool {
    (a.0 == b.0 && (a.1 + 1 == b.1 || b.1 + 1 == a.1))
        || (a.1 == b.1 && (a.0 + 1 == b.0 || b.0 + 1 == a.0))
}

#[test]
fn start_walled_in_on_all_sides_finds_no_way() {
    // With walls at (2,1) and (1,2) the start has no open cell beside it: steps go up,
    // right, down and left, never across a corner.
    let mut grid = room(&[(2, 1), (1, 2)]);
    assert!(!solve_single_agent(&mut grid, (1, 1)));
    assert_eq!(grid.get(1, 1), Ok(CellState::Dead));
    assert_eq!(grid.get(2, 2), Ok(CellState::Open));
    assert_eq!(grid.get(3, 3), Ok(CellState::Open));
}

#[test]
fn with_one_wall_beside_the_start_the_way_leads_through_the_middle() {
    let mut grid = room(&[(2, 1)]);
    assert!(solve_single_agent(&mut grid, (1, 1)));
    for cell in [(1, 1), (1, 2), (2, 2), (3, 2), (3, 3)] {
        assert_eq!(grid.get(cell.0, cell.1), Ok(CellState::Visited));
    }
    assert_eq!(grid.get(3, 1), Ok(CellState::Dead));
    assert_eq!(grid.get(1, 3), Ok(CellState::Open));
    assert_eq!(grid.get(2, 3), Ok(CellState::Open));
    assert_eq!(grid.get(2, 1), Ok(CellState::Wall));
}

#[test]
fn open_room_is_searched_up_right_down_left() {
    let mut solver = Solver::new(room(&[]), (1, 1));
    while solver.status() == SolveStatus::Searching {
        solver.step();
    }
    assert_eq!(solver.status(), SolveStatus::Solved);
    // Right along the top row, then down the right column.
    assert_eq!(solver.trail(), &vec![(1, 1), (2, 1), (3, 1), (3, 2), (3, 3)]);
}

#[test]
fn goal_behind_a_wall_is_not_found() {
    // A wall across the whole width parts the start from the goal.
    let mut grid = room(&[(1, 2), (2, 2), (3, 2)]);
    assert!(!solve_single_agent(&mut grid, (1, 1)));
    for cell in [(1, 1), (2, 1), (3, 1)] {
        assert_eq!(grid.get(cell.0, cell.1), Ok(CellState::Dead));
    }
    for cell in [(1, 3), (2, 3), (3, 3)] {
        assert_eq!(grid.get(cell.0, cell.1), Ok(CellState::Open));
    }
    assert_eq!(count(&grid, CellState::Visited), 0);
}

#[test]
fn generated_maze_is_solved() {
    for &(size, seed) in &[(5usize, 1u64), (9, 2), (21, 3), (49, 4)] {
        let mut grid = seeded_maze(size, seed);
        assert!(solve_single_agent(&mut grid, (1, 1)));
        assert_eq!(grid.get(1, 1), Ok(CellState::Visited));
        assert_eq!(grid.get(size - 2, size - 2), Ok(CellState::Visited));
    }
}

#[test]
fn second_search_of_a_solved_grid_fails_and_marks_nothing() {
    let mut grid = seeded_maze(21, 8);
    assert!(solve_single_agent(&mut grid, (1, 1)));
    let after_first = snapshot(&grid);
    assert!(!solve_single_agent(&mut grid, (1, 1)));
    assert_eq!(snapshot(&grid), after_first);
}

#[test]
fn second_search_of_an_exhausted_grid_fails_too() {
    let mut grid = room(&[(1, 2), (2, 2), (3, 2)]);
    assert!(!solve_single_agent(&mut grid, (1, 1)));
    let after_first = snapshot(&grid);
    assert!(!solve_single_agent(&mut grid, (1, 1)));
    assert_eq!(snapshot(&grid), after_first);
}

#[test]
fn search_from_a_wall_fails_at_once() {
    let mut grid = room(&[]);
    let before = snapshot(&grid);
    assert!(!solve_single_agent(&mut grid, (0, 0)));
    assert!(!solve_single_agent(&mut grid, (2, 0)));
    assert_eq!(snapshot(&grid), before);
}

#[test]
fn search_from_outside_the_grid_fails_at_once() {
    let mut grid = room(&[]);
    let before = snapshot(&grid);
    assert!(!solve_single_agent(&mut grid, (5, 1)));
    assert!(!solve_single_agent(&mut grid, (1, 17)));
    assert!(!solve_single_agent(&mut grid, (usize::MAX, usize::MAX)));
    assert_eq!(snapshot(&grid), before);
}

#[test]
fn search_from_the_goal_is_solved_with_one_marking() {
    let mut grid = room(&[]);
    assert!(solve_single_agent(&mut grid, (3, 3)));
    assert_eq!(grid.get(3, 3), Ok(CellState::Visited));
    assert_eq!(count(&grid, CellState::Visited), 1);
    assert_eq!(count(&grid, CellState::Dead), 0);
}

#[test]
fn search_from_another_open_cell() {
    let mut grid = room(&[(2, 1), (2, 2), (2, 3)]);
    // The left column is cut off from the goal, the right column is not.
    assert!(!solve_single_agent(&mut grid, (1, 3)));
    assert!(solve_single_agent(&mut grid, (3, 1)));
    assert_eq!(grid.get(3, 1), Ok(CellState::Visited));
    assert_eq!(grid.get(3, 2), Ok(CellState::Visited));
    assert_eq!(grid.get(3, 3), Ok(CellState::Visited));
}

#[test]
fn trail_of_a_solved_search_is_a_simple_walk_to_the_goal() {
    let grid = seeded_maze(31, 77);
    let before = snapshot(&grid);
    let mut solver = Solver::new(grid, (1, 1));
    while solver.status() == SolveStatus::Searching {
        solver.step();
    }
    assert_eq!(solver.status(), SolveStatus::Solved);
    let trail = solver.trail().clone();
    assert_eq!(trail[0], (1, 1));
    assert_eq!(trail[trail.len() - 1], (29, 29));
    for i in 0..trail.len() {
        assert_eq!(before[trail[i].1][trail[i].0], CellState::Open);
        for j in 0..i {
            assert_ne!(trail[i], trail[j]);
        }
        if i > 0 {
            assert!(adjacent(trail[i - 1], trail[i]));
        }
    }
    let grid = solver.into_grid();
    assert_eq!(count(&grid, CellState::Visited), trail.len());
    for cell in &trail {
        assert_eq!(grid.get(cell.0, cell.1), Ok(CellState::Visited));
    }
}

#[test]
fn each_step_makes_one_marking() {
    let mut solver = Solver::new(seeded_maze(15, 3), (1, 1));
    let mut before = snapshot(solver.grid());
    while solver.status() == SolveStatus::Searching {
        solver.step();
        let after = snapshot(solver.grid());
        let mut changed = 0;
        for y in 0..15 {
            for x in 0..15 {
                if before[y][x] != after[y][x] {
                    changed += 1;
                    let forward = (before[y][x] == CellState::Open
                        && after[y][x] == CellState::Visited)
                        || (before[y][x] == CellState::Visited && after[y][x] == CellState::Dead);
                    assert!(forward);
                }
            }
        }
        assert_eq!(changed, 1);
        before = after;
    }
}

#[test]
fn steps_are_bounded_by_twice_the_open_cells() {
    for seed in 0u64..8 {
        let grid = seeded_maze(21, seed);
        let open = count(&grid, CellState::Open);
        let mut solver = Solver::new(grid, (1, 1));
        let mut steps = 1;
        while solver.status() == SolveStatus::Searching {
            solver.step();
            steps += 1;
        }
        assert!(steps <= 2 * open);
    }
}

#[test]
fn finished_search_stays_as_it_is() {
    let mut solver = Solver::new(room(&[]), (1, 1));
    while solver.status() == SolveStatus::Searching {
        solver.step();
    }
    let grid = snapshot(solver.grid());
    let trail = solver.trail().clone();
    assert_eq!(solver.step(), SolveStatus::Solved);
    assert_eq!(snapshot(solver.grid()), grid);
    assert_eq!(solver.trail(), &trail);

    let mut lost = Solver::new(room(&[(1, 2), (2, 2), (3, 2)]), (1, 1));
    while lost.status() == SolveStatus::Searching {
        lost.step();
    }
    assert_eq!(lost.status(), SolveStatus::Exhausted);
    assert!(lost.trail().is_empty());
    let grid = snapshot(lost.grid());
    assert_eq!(lost.step(), SolveStatus::Exhausted);
    assert_eq!(snapshot(lost.grid()), grid);
}

#[test]
fn exhausted_search_leaves_every_cell_within_reach_dead() {
    let mut grid = room(&[(3, 2), (2, 3), (3, 3)]);
    grid.set(3, 3, CellState::Open).unwrap();
    assert!(!solve_single_agent(&mut grid, (1, 1)));
    for cell in [(1, 1), (2, 1), (3, 1), (1, 2), (2, 2), (1, 3)] {
        assert_eq!(grid.get(cell.0, cell.1), Ok(CellState::Dead));
    }
    assert_eq!(grid.get(3, 3), Ok(CellState::Open));
}

#[test]
fn marks_of_an_earlier_search_are_walls_to_the_next() {
    let mut grid = room(&[]);
    grid.set(2, 1, CellState::Visited).unwrap();
    grid.set(1, 2, CellState::Dead).unwrap();
    assert!(!solve_single_agent(&mut grid, (1, 1)));
    assert_eq!(grid.get(1, 1), Ok(CellState::Dead));
    assert_eq!(grid.get(2, 1), Ok(CellState::Visited));
    assert_eq!(grid.get(1, 2), Ok(CellState::Dead));
    assert_eq!(grid.get(2, 2), Ok(CellState::Open));
}

#[test]
fn markings_come_in_depth_first_order() {
    let mut solver = Solver::new(room(&[(2, 1)]), (1, 1));
    let mut seen = vec![((1usize, 1usize), CellState::Visited)];
    assert_eq!(solver.grid().get(1, 1), Ok(CellState::Visited));
    let mut before = snapshot(solver.grid());
    while solver.status() == SolveStatus::Searching {
        solver.step();
        let after = snapshot(solver.grid());
        for y in 0..5 {
            for x in 0..5 {
                if before[y][x] != after[y][x] {
                    seen.push(((x, y), after[y][x]));
                }
            }
        }
        before = after;
    }
    let expected = vec![
        ((1, 1), CellState::Visited),
        ((1, 2), CellState::Visited),
        ((2, 2), CellState::Visited),
        ((3, 2), CellState::Visited),
        ((3, 1), CellState::Visited),
        ((3, 1), CellState::Dead),
        ((3, 3), CellState::Visited),
    ];
    assert_eq!(seen, expected);
    assert_eq!(solver.status(), SolveStatus::Solved);
}

#[test]
fn backtracking_goes_on_with_the_next_direction() {
    // From (2,2) the search goes up into a blind cell first, comes back and goes right.
    let mut grid = Grid::new(7);
    for cell in [(1, 1), (2, 1), (2, 2), (2, 3), (3, 3), (4, 3), (5, 3), (5, 4), (5, 5)] {
        grid.set(cell.0, cell.1, CellState::Open).unwrap();
    }
    let mut solver = Solver::new(grid, (2, 2));
    while solver.status() == SolveStatus::Searching {
        solver.step();
    }
    assert_eq!(solver.status(), SolveStatus::Solved);
    assert_eq!(solver.trail(), &vec![(2, 2), (2, 3), (3, 3), (4, 3), (5, 3), (5, 4), (5, 5)]);
    assert_eq!(solver.grid().get(2, 1), Ok(CellState::Dead));
    assert_eq!(solver.grid().get(1, 1), Ok(CellState::Dead));
}
