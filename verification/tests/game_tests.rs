use maze_craze::custom_events::CustomEvent;
use maze_craze::direction::Direction;
use maze_craze::game::MazeGame;
use maze_craze::maze::{DirOrder, MazeGrid};

/// A session over the deterministic two-by-two snake maze
/// (0,0)-(1,0)-(1,1)-(0,1), with end at (1,1).
fn snake_session() -> MazeGame {
    let orders: Vec<DirOrder> = (0..4)
        .map(|_| DirOrder::new(Direction::Right, Direction::Down, Direction::Left, Direction::Up))
        .collect();
    let maze = MazeGrid::new_with_orders(2, (0, 0), (1, 1), &orders);
    MazeGame { maze, players: Vec::new(), is_finished: false, winner: None }
}

#[test]
fn session_size_is_validated() {
    assert!(MazeGame::new(0).is_none());
    assert!(MazeGame::new(-3).is_none());
    assert!(MazeGame::new(51).is_none());
    assert!(MazeGame::new(1).is_some());
    assert!(MazeGame::new(16).is_some());
    assert!(MazeGame::new(50).is_some());
}

#[test]
fn connect_adds_player_at_start_once() {
    let mut game = MazeGame::new(4).unwrap();
    game.connect_player("ana".to_string());
    assert_eq!(game.players.len(), 1);
    assert_eq!(game.players[0].name, "ana");
    assert_eq!(game.players[0].pos, (0, 0));
    // a second connect under the same name is ignored
    game.connect_player("ana".to_string());
    assert_eq!(game.players.len(), 1);
    game.connect_player("bo".to_string());
    assert_eq!(game.players.len(), 2);
}

#[test]
fn disconnect_removes_player() {
    let mut game = MazeGame::new(4).unwrap();
    game.connect_player("ana".to_string());
    game.connect_player("bo".to_string());
    game.disconnect_player("ana");
    assert_eq!(game.players.len(), 1);
    assert_eq!(game.players[0].name, "bo");
    // removing an unknown name is a no-op
    game.disconnect_player("nobody");
    assert_eq!(game.players.len(), 1);
}

#[test]
fn move_through_passage_updates_position() {
    let mut game = snake_session();
    game.connect_player("ana".to_string());
    game.move_player("ana", Direction::Right);
    assert_eq!(game.players[0].pos, (1, 0));
    assert!(!game.is_finished);
}

#[test]
fn move_without_passage_is_rejected() {
    let mut game = snake_session();
    game.connect_player("ana".to_string());
    // (0,0) opens only to the right in the snake maze
    game.move_player("ana", Direction::Down);
    assert_eq!(game.players[0].pos, (0, 0));
    assert!(!game.is_finished);
}

#[test]
fn move_off_grid_is_rejected() {
    let mut game = snake_session();
    game.connect_player("ana".to_string());
    game.move_player("ana", Direction::Up);
    assert_eq!(game.players[0].pos, (0, 0));
    game.move_player("ana", Direction::Left);
    assert_eq!(game.players[0].pos, (0, 0));
}

#[test]
fn move_of_unknown_player_changes_nothing() {
    let mut game = snake_session();
    game.connect_player("ana".to_string());
    game.move_player("bo", Direction::Right);
    assert_eq!(game.players[0].pos, (0, 0));
}

#[test]
fn reaching_end_finishes_session_with_winner() {
    let mut game = snake_session();
    game.connect_player("ana".to_string());
    game.connect_player("bo".to_string());
    game.move_player("ana", Direction::Right);
    game.move_player("ana", Direction::Down);
    assert_eq!(game.players[0].pos, (1, 1));
    assert!(game.is_finished);
    assert_eq!(game.winner_name().as_deref(), Some("ana"));
    // a finished session ignores further moves
    game.move_player("bo", Direction::Right);
    assert_eq!(game.players[1].pos, (0, 0));
    assert_eq!(game.winner_name().as_deref(), Some("ana"));
}

#[test]
fn restart_clears_finished_state_and_resets_positions() {
    let mut game = snake_session();
    game.connect_player("ana".to_string());
    game.connect_player("bo".to_string());
    game.move_player("ana", Direction::Right);
    game.move_player("ana", Direction::Down);
    assert!(game.is_finished);
    game.restart();
    assert!(!game.is_finished);
    assert!(game.winner_name().is_none());
    assert_eq!(game.players.len(), 2);
    assert_eq!(game.players[0].name, "ana");
    assert_eq!(game.players[0].pos, (0, 0));
    assert_eq!(game.players[1].pos, (0, 0));
    assert_eq!(game.maze.size(), 2);
    // the fresh grid is a maze again: both neighbours of the start exist
    let total: usize = (0..2)
        .flat_map(|y| (0..2).map(move |x| (x, y)))
        .map(|(x, y)| game.maze.cell_at(x, y).unwrap().available_directions().len())
        .sum();
    assert_eq!(total, 2 * 3);
}

#[test]
fn try_move_by_identifier() {
    let mut game = snake_session();
    game.connect_player("ana".to_string());
    let id = game.players[0].id();
    game.try_move(id, Direction::Right);
    assert_eq!(game.players[0].pos, (1, 0));
    // an unknown identifier changes nothing
    game.try_move(id.wrapping_add(1), Direction::Down);
    assert_eq!(game.players[0].pos, (1, 0));
}

#[test]
fn single_cell_session_wins_by_initial_placement() {
    let mut game = MazeGame::new(1).unwrap();
    game.connect_player("solo".to_string());
    // start and end coincide: the placement check declares the winner at
    // connect time, not through a move
    assert!(game.is_finished);
    assert_eq!(game.winner_name().as_deref(), Some("solo"));
    // every move attempt is rejected and changes nothing
    for i in 0..4usize {
        game.move_player("solo", Direction::new(i));
        assert_eq!(game.players[0].pos, (0, 0));
    }
    assert_eq!(game.winner_name().as_deref(), Some("solo"));
}

#[test]
fn winner_name_outlives_only_connected_winners() {
    let mut game = snake_session();
    game.connect_player("ana".to_string());
    game.move_player("ana", Direction::Right);
    game.move_player("ana", Direction::Down);
    assert_eq!(game.winner_name().as_deref(), Some("ana"));
    game.disconnect_player("ana");
    assert!(game.winner_name().is_none());
}

#[test]
fn handle_input_dispatches_events() {
    let mut game = snake_session();
    game.handle_input(&CustomEvent::PlayerConnected("ana".to_string()));
    assert_eq!(game.players.len(), 1);
    game.handle_input(&CustomEvent::PlayerMove("ana".to_string(), Direction::Right));
    assert_eq!(game.players[0].pos, (1, 0));
    game.handle_input(&CustomEvent::PlayerDisconnected("ana".to_string()));
    assert_eq!(game.players.len(), 0);
}

#[test]
fn roster_listing_keeps_names_and_order() {
    let mut game = MazeGame::new(3).unwrap();
    game.connect_player("ana".to_string());
    game.connect_player("bo".to_string());
    let listed = game.players();
    assert_eq!(listed.len(), 2);
    assert_eq!(listed[0].0, "ana");
    assert_eq!(listed[1].0, "bo");
    assert_eq!(listed[0].1, game.players[0].color);
}
