use maze_craze::direction::Direction;

#[test]
fn from_index_and_back() {
    assert_eq!(Direction::new(0), Direction::Up);
    assert_eq!(Direction::new(1), Direction::Right);
    assert_eq!(Direction::new(2), Direction::Down);
    assert_eq!(Direction::new(3), Direction::Left);
    for i in 0..4usize {
        assert_eq!(Direction::new(i).to_int(), i);
    }
}

#[test]
fn out_of_range_index_maps_to_up() {
    assert_eq!(Direction::new(4), Direction::Up);
    assert_eq!(Direction::new(1000), Direction::Up);
}

#[test]
fn next_cycles_forward() {
    assert_eq!(Direction::Up.next(), Direction::Right);
    assert_eq!(Direction::Right.next(), Direction::Down);
    assert_eq!(Direction::Down.next(), Direction::Left);
    assert_eq!(Direction::Left.next(), Direction::Up);
}

#[test]
fn prev_cycles_backward() {
    assert_eq!(Direction::Up.prev(), Direction::Left);
    assert_eq!(Direction::Right.prev(), Direction::Up);
    assert_eq!(Direction::Down.prev(), Direction::Right);
    assert_eq!(Direction::Left.prev(), Direction::Down);
}

#[test]
fn opposite_is_involution() {
    for i in 0..4usize {
        let d = Direction::new(i);
        assert_eq!(d.opposite().opposite(), d);
        assert_eq!(d.opposite(), d.next().next());
    }
}

#[test]
fn next_four_times_returns_to_start() {
    for i in 0..4usize {
        let d = Direction::new(i);
        assert_eq!(d.next().next().next().next(), d);
        assert_eq!(d.prev().next(), d);
    }
}

#[test]
fn grid_offsets_are_unit_vectors() {
    assert_eq!(Direction::Up.grid_dir(), (0, -1));
    assert_eq!(Direction::Right.grid_dir(), (1, 0));
    assert_eq!(Direction::Down.grid_dir(), (0, 1));
    assert_eq!(Direction::Left.grid_dir(), (-1, 0));
}

#[test]
fn opposite_offset_is_negated() {
    for i in 0..4usize {
        let d = Direction::new(i);
        let (dx, dy) = d.grid_dir();
        assert_eq!(d.grid_dir_opposite(), (-dx, -dy));
        assert_eq!(d.opposite().grid_dir(), (-dx, -dy));
    }
}
