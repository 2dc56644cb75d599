use maze_craze::direction::Direction;
use maze_craze::maze::{Cell, Color, DirOrder, MazeGrid};

/// Walks the `has_link_to` edges from the start cell; returns how many
/// distinct cells were visited.
fn reachable_count(grid: &MazeGrid) -> usize {
    let size = grid.size();
    if size <= 0 {
        return 0;
    }
    let n = (size * size) as usize;
    let mut seen = vec![false; n];
    let start = grid.start_pos();
    let mut queue = vec![start];
    seen[(start.1 * size + start.0) as usize] = true;
    let mut count = 0usize;
    while let Some((x, y)) = queue.pop() {
        count += 1;
        let cell = grid.cell_at(x, y).unwrap();
        for i in 0..4usize {
            let d = Direction::new(i);
            let (dx, dy) = d.grid_dir();
            let (nx, ny) = (x + dx, y + dy);
            if let Some(neighbor) = grid.cell_at(nx, ny) {
                if cell.has_link_to(neighbor) {
                    let idx = (ny * size + nx) as usize;
                    if !seen[idx] {
                        seen[idx] = true;
                        queue.push((nx, ny));
                    }
                }
            }
        }
    }
    count
}

fn total_direction_entries(grid: &MazeGrid) -> usize {
    let size = grid.size();
    let mut total = 0usize;
    for y in 0..size {
        for x in 0..size {
            total += grid.cell_at(x, y).unwrap().available_directions().len();
        }
    }
    total
}

#[test]
fn size_zero_grid_is_empty() {
    let grid = MazeGrid::new(0, (0, 0), (0, 0));
    assert_eq!(grid.size(), 0);
    assert!(grid.cell_at(0, 0).is_none());
}

#[test]
fn out_of_bounds_start_leaves_grid_disconnected() {
    let grid = MazeGrid::new(3, (-1, 0), (2, 2));
    for y in 0..3 {
        for x in 0..3 {
            assert!(grid.cell_at(x, y).unwrap().available_directions().is_empty());
        }
    }
}

#[test]
fn single_cell_grid_has_no_passages() {
    let grid = MazeGrid::new(1, (0, 0), (0, 0));
    let cell = grid.cell_at(0, 0).unwrap();
    assert!(cell.available_directions().is_empty());
    assert_eq!(grid.start_pos(), (0, 0));
    assert_eq!(grid.end_pos(), (0, 0));
    assert_eq!(total_direction_entries(&grid), 0);
}

#[test]
fn generated_grid_is_fully_connected() {
    for size in [1, 2, 4, 5, 8] {
        let grid = MazeGrid::new(size, (0, 0), (size - 1, size - 1));
        assert_eq!(reachable_count(&grid), (size * size) as usize);
    }
}

#[test]
fn generation_from_an_inner_start_connects_everything() {
    let grid = MazeGrid::new(5, (2, 3), (0, 0));
    assert_eq!(reachable_count(&grid), 25);
    assert_eq!(total_direction_entries(&grid), 2 * 24);
}

#[test]
fn generated_grid_has_spanning_tree_passage_count() {
    for size in [1, 2, 4, 5, 8] {
        let grid = MazeGrid::new(size, (0, 0), (size - 1, size - 1));
        // each reciprocal passage pair contributes one entry on each side
        let n = (size * size) as usize;
        assert_eq!(total_direction_entries(&grid), 2 * (n - 1));
    }
}

#[test]
fn links_are_symmetric_on_every_adjacent_pair() {
    let grid = MazeGrid::new(6, (0, 0), (5, 5));
    for y in 0..6 {
        for x in 0..6 {
            let a = grid.cell_at(x, y).unwrap();
            for (dx, dy) in [(0, -1), (1, 0), (0, 1), (-1, 0)] {
                if let Some(b) = grid.cell_at(x + dx, y + dy) {
                    assert_eq!(a.has_link_to(b), b.has_link_to(a));
                }
            }
        }
    }
}

#[test]
fn links_respect_reciprocity() {
    let grid = MazeGrid::new(5, (0, 0), (4, 4));
    for y in 0..5 {
        for x in 0..5 {
            let cell = grid.cell_at(x, y).unwrap();
            for d in cell.available_directions().iter() {
                let (dx, dy) = d.grid_dir();
                let neighbor = grid.cell_at(x + dx, y + dy).expect("passage must stay in bounds");
                assert!(neighbor.available_directions().contains(&d.opposite()));
                assert!(cell.has_link_to(neighbor));
            }
        }
    }
}

#[test]
fn unrelated_cells_have_no_link() {
    let a = Cell::new(0, 0);
    let b = Cell::new(2, 0);
    // not orthogonally adjacent: vacuously unlinked
    assert!(!a.has_link_to(&b));
    assert!(!b.has_link_to(&a));
}

#[test]
fn one_sided_passage_is_not_a_link() {
    let mut a = Cell::new(0, 0);
    let b = Cell::new(1, 0);
    a.add_passage(Direction::Right);
    // the reciprocal side is missing, so the double-check rejects the link
    assert!(!a.has_link_to(&b));
    assert!(!b.has_link_to(&a));
}

#[test]
fn add_passage_is_idempotent_and_sorted() {
    let mut c = Cell::new(0, 0);
    c.add_passage(Direction::Left);
    c.add_passage(Direction::Up);
    c.add_passage(Direction::Left);
    c.add_passage(Direction::Down);
    c.add_passage(Direction::Up);
    assert_eq!(
        c.available_directions(),
        &vec![Direction::Up, Direction::Down, Direction::Left],
    );
}

#[test]
fn fixed_orders_give_deterministic_layout() {
    let orders: Vec<DirOrder> = (0..16)
        .map(|_| DirOrder::new(Direction::Right, Direction::Down, Direction::Left, Direction::Up))
        .collect();
    let a = MazeGrid::new_with_orders(4, (0, 0), (3, 3), &orders);
    let b = MazeGrid::new_with_orders(4, (0, 0), (3, 3), &orders);
    for y in 0..4 {
        for x in 0..4 {
            assert_eq!(
                a.cell_at(x, y).unwrap().available_directions(),
                b.cell_at(x, y).unwrap().available_directions(),
            );
        }
    }
    assert_eq!(reachable_count(&a), 16);
    assert_eq!(total_direction_entries(&a), 2 * 15);
}

#[test]
fn fixed_orders_small_grid_exact_layout() {
    // trying right, down, left, up in that order from (0,0) carves the
    // snake (0,0)-(1,0)-(1,1)-(0,1)
    let orders: Vec<DirOrder> = (0..4)
        .map(|_| DirOrder::new(Direction::Right, Direction::Down, Direction::Left, Direction::Up))
        .collect();
    let grid = MazeGrid::new_with_orders(2, (0, 0), (1, 1), &orders);
    assert_eq!(grid.cell_at(0, 0).unwrap().available_directions(), &vec![Direction::Right]);
    assert_eq!(
        grid.cell_at(1, 0).unwrap().available_directions(),
        &vec![Direction::Down, Direction::Left],
    );
    assert_eq!(
        grid.cell_at(1, 1).unwrap().available_directions(),
        &vec![Direction::Up, Direction::Left],
    );
    assert_eq!(grid.cell_at(0, 1).unwrap().available_directions(), &vec![Direction::Right]);
}

#[test]
fn cell_positions_match_coordinates() {
    let grid = MazeGrid::new(3, (0, 0), (2, 2));
    for y in 0..3 {
        for x in 0..3 {
            assert_eq!(grid.cell_at(x, y).unwrap().pos(), (x, y));
        }
    }
    assert!(grid.cell_at(3, 0).is_none());
    assert!(grid.cell_at(0, -1).is_none());
}

#[test]
fn cell_mut_at_gives_access_in_bounds_only() {
    let mut grid = MazeGrid::new(2, (0, 0), (1, 1));
    assert!(grid.cell_mut_at(-1, 0).is_none());
    assert!(grid.cell_mut_at(0, 2).is_none());
    let cell = grid.cell_mut_at(1, 1).unwrap();
    let marker = cell.color();
    cell.set_color(marker);
    assert_eq!(grid.cell_at(1, 1).unwrap().color(), marker);
}

#[test]
fn start_cell_carries_the_marker_colour() {
    let grid = MazeGrid::new(3, (1, 1), (2, 2));
    assert_eq!(grid.cell_at(1, 1).unwrap().color(), Color::new(255, 0, 255, 0));
    assert_eq!(grid.cell_at(0, 0).unwrap().color(), Color::new(255, 100, 100, 100));
}
