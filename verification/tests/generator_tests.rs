use maze_search::generator::{generate_maze, DirectionOrder, OrderSource};
use maze_search::grid::{CellState, Direction, Grid};
use rand::rngs::StdRng;
use rand::SeedableRng;

fn seeded_maze(size: usize, seed: u64) -> Grid {
    let mut source = OrderSource::random(StdRng::seed_from_u64(seed));
    generate_maze(size, &mut source)
}

fn scripted_maze(size: usize, orders: Vec<DirectionOrder>) -> Grid {
    let mut source = OrderSource::scripted(orders);
    generate_maze(size, &mut source)
}

fn rows(grid: &Grid) -> Vec<String> {
    let n = grid.size();
    let mut out = Vec::new();
    for y in 0..n {
        let mut row = String::new();
        for x in 0..n {
            row.push(match grid.get(x, y).unwrap() {
                CellState::Wall => '#',
                CellState::Open => '.',
                CellState::Visited => 'v',
                CellState::Dead => 'x',
            });
        }
        out.push(row);
    }
    out
}

fn open_cells(grid: &Grid) -> Vec<(usize, usize)> {
    let n = grid.size();
    let mut out = Vec::new();
    for y in 0..n {
        for x in 0..n {
            if grid.get(x, y) == Ok(CellState::Open) {
                out.push((x, y));
            }
        }
    }
    out
}

fn is_tree(grid: &Grid) -> bool {
    let open = open_cells(grid);
    let mut links = 0;
    for &(x, y) in &open {
        if grid.get(x + 1, y) == Ok(CellState::Open) {
            links += 1;
        }
        if grid.get(x, y + 1) == Ok(CellState::Open) {
            links += 1;
        }
    }
    let mut seen = vec![(1usize, 1usize)];
    let mut next = 0;
    while next < seen.len() {
        let (x, y) = seen[next];
        next += 1;
        for c in grid.neighbors4(x, y) {
            if grid.get(c.0, c.1) == Ok(CellState::Open) && !seen.contains(&c) {
                seen.push(c);
            }
        }
    }
    seen.len() == open.len() && links + 1 == open.len()
}

#[test]
fn maze_has_a_wall_ring_and_open_ends() {
    for &(size, seed) in &[(5usize, 1u64), (7, 2), (9, 3), (21, 4), (49, 5)] {
        let grid = seeded_maze(size, seed);
        assert_eq!(grid.size(), size);
        for i in 0..size {
            assert_eq!(grid.get(i, 0), Ok(CellState::Wall));
            assert_eq!(grid.get(i, size - 1), Ok(CellState::Wall));
            assert_eq!(grid.get(0, i), Ok(CellState::Wall));
            assert_eq!(grid.get(size - 1, i), Ok(CellState::Wall));
        }
        assert_eq!(grid.get(1, 1), Ok(CellState::Open));
        assert_eq!(grid.get(size - 2, size - 2), Ok(CellState::Open));
    }
}

#[test]
fn maze_holds_walls_and_open_cells_only() {
    let grid = seeded_maze(21, 11);
    for y in 0..21 {
        for x in 0..21 {
            let state = grid.get(x, y).unwrap();
            assert!(state == CellState::Wall || state == CellState::Open);
        }
    }
}

#[test]
fn maze_opens_every_junction_and_no_cell_between_four() {
    let grid = seeded_maze(21, 12);
    for y in 1..20 {
        for x in 1..20 {
            if x % 2 == 1 && y % 2 == 1 {
                assert_eq!(grid.get(x, y), Ok(CellState::Open));
            }
            if x % 2 == 0 && y % 2 == 0 {
                assert_eq!(grid.get(x, y), Ok(CellState::Wall));
            }
        }
    }
}

#[test]
fn maze_is_connected_and_has_no_cycle() {
    for &(size, seed) in &[(5usize, 21u64), (7, 22), (15, 23), (49, 24)] {
        let grid = seeded_maze(size, seed);
        assert!(is_tree(&grid));
        let junctions = ((size - 1) / 2) * ((size - 1) / 2);
        assert_eq!(open_cells(&grid).len(), 2 * junctions - 1);
    }
}

#[test]
fn same_seed_gives_the_same_maze() {
    for seed in [0u64, 7, 99] {
        assert_eq!(rows(&seeded_maze(49, seed)), rows(&seeded_maze(49, seed)));
    }
}

#[test]
fn some_seeds_give_different_mazes() {
    let first = rows(&seeded_maze(21, 1));
    let mut differs = false;
    for seed in 2u64..10 {
        if rows(&seeded_maze(21, seed)) != first {
            differs = true;
        }
    }
    assert!(differs);
}

#[test]
fn canonical_orders_carve_this_maze() {
    let expected = vec!["#####", "#...#", "###.#", "#...#", "#####"];
    assert_eq!(rows(&scripted_maze(5, vec![DirectionOrder::canonical(); 4])), expected);
}

#[test]
fn a_script_that_runs_out_goes_on_in_canonical_order() {
    let expected = vec!["#####", "#...#", "###.#", "#...#", "#####"];
    assert_eq!(rows(&scripted_maze(5, Vec::new())), expected);
    assert_eq!(rows(&scripted_maze(5, vec![DirectionOrder::canonical()])), expected);
}

#[test]
fn reversed_orders_carve_the_mirror_maze() {
    let reversed =
        DirectionOrder::new(Direction::Left, Direction::Down, Direction::Right, Direction::Up)
            .unwrap();
    let expected = vec!["#####", "#.#.#", "#.#.#", "#...#", "#####"];
    assert_eq!(rows(&scripted_maze(5, vec![reversed; 4])), expected);
}

#[test]
fn each_junction_takes_the_next_order_of_the_script() {
    let down_first =
        DirectionOrder::new(Direction::Down, Direction::Right, Direction::Up, Direction::Left)
            .unwrap();
    let right_first = DirectionOrder::canonical();
    // (1,1) goes down to (1,3); (1,3), in canonical order, goes right to (3,3); (3,3) goes
    // up to (3,1).
    let expected = vec!["#####", "#.#.#", "#.#.#", "#...#", "#####"];
    assert_eq!(rows(&scripted_maze(5, vec![down_first, right_first])), expected);
    // (1,1) goes right to (3,1); (3,1) goes down to (3,3); (3,3) goes left to (1,3).
    let expected = vec!["#####", "#...#", "###.#", "#...#", "#####"];
    assert_eq!(rows(&scripted_maze(5, vec![right_first, down_first])), expected);
}

#[test]
fn scripted_mazes_are_trees_too() {
    let orders = vec![
        DirectionOrder::new(Direction::Down, Direction::Left, Direction::Up, Direction::Right)
            .unwrap(),
        DirectionOrder::new(Direction::Right, Direction::Up, Direction::Left, Direction::Down)
            .unwrap(),
        DirectionOrder::canonical(),
    ];
    let grid = scripted_maze(11, orders);
    assert!(is_tree(&grid));
    assert_eq!(grid.get(9, 9), Ok(CellState::Open));
}

#[test]
fn direction_order_takes_four_different_directions() {
    let order =
        DirectionOrder::new(Direction::Left, Direction::Down, Direction::Right, Direction::Up)
            .unwrap();
    assert_eq!(order.get(0), Direction::Left);
    assert_eq!(order.get(1), Direction::Down);
    assert_eq!(order.get(2), Direction::Right);
    assert_eq!(order.get(3), Direction::Up);
}

#[test]
fn direction_order_rejects_a_repeated_direction() {
    let all = [Direction::Up, Direction::Right, Direction::Down, Direction::Left];
    let mut accepted = 0;
    for a in all {
        for b in all {
            for c in all {
                for d in all {
                    let distinct = a != b && a != c && a != d && b != c && b != d && c != d;
                    let order = DirectionOrder::new(a, b, c, d);
                    assert_eq!(order.is_some(), distinct);
                    if distinct {
                        accepted += 1;
                    }
                }
            }
        }
    }
    assert_eq!(accepted, 24);
}

#[test]
fn canonical_order_is_up_right_down_left() {
    let order = DirectionOrder::canonical();
    assert_eq!(order.get(0), Direction::Up);
    assert_eq!(order.get(1), Direction::Right);
    assert_eq!(order.get(2), Direction::Down);
    assert_eq!(order.get(3), Direction::Left);
}

#[test]
fn shuffled_orders_hold_each_direction_once_and_vary() {
    let mut rng = StdRng::seed_from_u64(2024);
    let all = [Direction::Up, Direction::Right, Direction::Down, Direction::Left];
    let mut not_canonical = 0;
    for _ in 0..64 {
        let order = DirectionOrder::shuffled(&mut rng);
        let drawn = [order.get(0), order.get(1), order.get(2), order.get(3)];
        for d in all {
            assert_eq!(drawn.iter().filter(|&&e| e == d).count(), 1);
        }
        if drawn != all {
            not_canonical += 1;
        }
    }
    assert!(not_canonical > 0);
}

#[test]
fn shuffled_orders_repeat_with_the_seed() {
    let mut first = StdRng::seed_from_u64(5);
    let mut second = StdRng::seed_from_u64(5);
    for _ in 0..32 {
        let a = DirectionOrder::shuffled(&mut first);
        let b = DirectionOrder::shuffled(&mut second);
        for i in 0..4 {
            assert_eq!(a.get(i), b.get(i));
        }
    }
}

#[test]
fn order_source_hands_out_the_script_then_the_canonical_order() {
    let reversed =
        DirectionOrder::new(Direction::Left, Direction::Down, Direction::Right, Direction::Up)
            .unwrap();
    let mut source = OrderSource::scripted(vec![reversed]);
    assert_eq!(source.next().get(0), Direction::Left);
    assert_eq!(source.next().get(0), Direction::Up);
    assert_eq!(source.next().get(3), Direction::Left);
}
