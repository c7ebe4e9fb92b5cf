use maze_search::grid::{CellState, Direction, Grid, GridError};

#[test]
fn new_grid_is_all_wall() {
    let grid = Grid::new(7);
    assert_eq!(grid.size(), 7);
    for y in 0..7 {
        for x in 0..7 {
            assert_eq!(grid.get(x, y), Ok(CellState::Wall));
        }
    }
}

#[test]
fn get_outside_the_grid_is_out_of_bounds() {
    let grid = Grid::new(5);
    assert_eq!(grid.get(5, 0), Err(GridError::OutOfBounds));
    assert_eq!(grid.get(0, 5), Err(GridError::OutOfBounds));
    assert_eq!(grid.get(5, 5), Err(GridError::OutOfBounds));
    assert_eq!(grid.get(usize::MAX, 2), Err(GridError::OutOfBounds));
    assert_eq!(grid.get(4, 4), Ok(CellState::Wall));
}

#[test]
fn set_outside_the_grid_is_out_of_bounds_and_changes_nothing() {
    let mut grid = Grid::new(5);
    assert_eq!(grid.set(5, 1, CellState::Open), Err(GridError::OutOfBounds));
    assert_eq!(grid.set(1, 5, CellState::Open), Err(GridError::OutOfBounds));
    assert_eq!(grid.set(7, 9, CellState::Dead), Err(GridError::OutOfBounds));
    for y in 0..5 {
        for x in 0..5 {
            assert_eq!(grid.get(x, y), Ok(CellState::Wall));
        }
    }
}

#[test]
fn set_writes_one_cell_only() {
    let mut grid = Grid::new(5);
    assert_eq!(grid.set(3, 1, CellState::Open), Ok(()));
    for y in 0..5 {
        for x in 0..5 {
            let expected = if (x, y) == (3, 1) { CellState::Open } else { CellState::Wall };
            assert_eq!(grid.get(x, y), Ok(expected));
        }
    }
}

#[test]
fn set_lets_any_state_overwrite_any_other() {
    let states = [CellState::Wall, CellState::Open, CellState::Visited, CellState::Dead];
    let mut grid = Grid::new(3);
    for before in states {
        for after in states {
            assert_eq!(grid.set(0, 2, before), Ok(()));
            assert_eq!(grid.set(0, 2, after), Ok(()));
            assert_eq!(grid.get(0, 2), Ok(after));
        }
    }
}

#[test]
fn neighbors4_come_up_right_down_left() {
    let grid = Grid::new(5);
    assert_eq!(grid.neighbors4(2, 2), vec![(2, 1), (3, 2), (2, 3), (1, 2)]);
    assert_eq!(grid.neighbors4(1, 3), vec![(1, 2), (2, 3), (1, 4), (0, 3)]);
}

#[test]
fn neighbors4_at_the_edges_leave_out_what_is_outside() {
    let grid = Grid::new(5);
    assert_eq!(grid.neighbors4(0, 0), vec![(1, 0), (0, 1)]);
    assert_eq!(grid.neighbors4(4, 4), vec![(4, 3), (3, 4)]);
    assert_eq!(grid.neighbors4(4, 0), vec![(4, 1), (3, 0)]);
    assert_eq!(grid.neighbors4(0, 2), vec![(0, 1), (1, 2), (0, 3)]);
}

#[test]
fn neighbors4_of_a_cell_outside_the_grid() {
    let grid = Grid::new(5);
    assert_eq!(grid.neighbors4(5, 2), vec![(4, 2)]);
    assert_eq!(grid.neighbors4(2, 5), vec![(2, 4)]);
    assert_eq!(grid.neighbors4(9, 9), Vec::<(usize, usize)>::new());
    assert_eq!(grid.neighbors4(usize::MAX, usize::MAX), Vec::<(usize, usize)>::new());
}

#[test]
fn neighbor_steps_one_cell_or_not_at_all() {
    let grid = Grid::new(5);
    assert_eq!(grid.neighbor((2, 2), Direction::Up), Some((2, 1)));
    assert_eq!(grid.neighbor((2, 2), Direction::Right), Some((3, 2)));
    assert_eq!(grid.neighbor((2, 2), Direction::Down), Some((2, 3)));
    assert_eq!(grid.neighbor((2, 2), Direction::Left), Some((1, 2)));
    assert_eq!(grid.neighbor((0, 0), Direction::Up), None);
    assert_eq!(grid.neighbor((0, 0), Direction::Left), None);
    assert_eq!(grid.neighbor((4, 4), Direction::Down), None);
    assert_eq!(grid.neighbor((4, 4), Direction::Right), None);
}

#[test]
fn canonical_turns() {
    assert_eq!(Grid::turn(0), Direction::Up);
    assert_eq!(Grid::turn(1), Direction::Right);
    assert_eq!(Grid::turn(2), Direction::Down);
    assert_eq!(Grid::turn(3), Direction::Left);
}

#[test]
fn start_and_goal_sit_one_step_inside_the_ring() {
    let grid = Grid::new(49);
    assert_eq!(grid.start(), (1, 1));
    assert_eq!(grid.goal(), (47, 47));
    let small = Grid::new(3);
    assert_eq!(small.start(), (1, 1));
    assert_eq!(small.goal(), (1, 1));
}
