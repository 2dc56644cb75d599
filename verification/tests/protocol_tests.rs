use maze_craze::custom_events::{CustomEvent, parse_event};
use maze_craze::direction::Direction;

fn expect_connected(line: &str, name: &str) {
    match parse_event(line) {
        Some(CustomEvent::PlayerConnected(n)) => assert_eq!(n, name),
        other => panic!("{:?} decoded to {:?}", line, other),
    }
}

fn expect_disconnected(line: &str, name: &str) {
    match parse_event(line) {
        Some(CustomEvent::PlayerDisconnected(n)) => assert_eq!(n, name),
        other => panic!("{:?} decoded to {:?}", line, other),
    }
}

fn expect_move(line: &str, name: &str, dir: Direction) {
    match parse_event(line) {
        Some(CustomEvent::PlayerMove(n, d)) => {
            assert_eq!(n, name);
            assert_eq!(d, dir);
        },
        other => panic!("{:?} decoded to {:?}", line, other),
    }
}

#[test]
fn connect_line_decodes() {
    expect_connected("okko:connect", "okko");
}

#[test]
fn disconnect_line_decodes() {
    expect_disconnected("okko:disconnect", "okko");
}

#[test]
fn move_lines_decode_all_directions() {
    expect_move("okko:move:up", "okko", Direction::Up);
    expect_move("okko:move:right", "okko", Direction::Right);
    expect_move("okko:move:down", "okko", Direction::Down);
    expect_move("okko:move:left", "okko", Direction::Left);
}

#[test]
fn whitespace_around_tokens_is_trimmed() {
    expect_connected("  okko  :  connect  ", "okko");
    expect_connected("okko:connect\n", "okko");
    expect_move("\tokko\t:move: left \r\n", "okko", Direction::Left);
}

#[test]
fn only_the_first_token_of_a_part_counts() {
    expect_connected("okko extra:connect", "okko");
    expect_connected("okko:connect junk", "okko");
}

#[test]
fn unknown_action_is_dropped() {
    assert!(parse_event("okko:fly").is_none());
    assert!(parse_event("okko:Connect").is_none());
    assert!(parse_event("okko:connected").is_none());
}

#[test]
fn unknown_direction_is_dropped() {
    assert!(parse_event("okko:move:diagonal").is_none());
    assert!(parse_event("okko:move:UP").is_none());
}

#[test]
fn wrong_part_count_is_dropped() {
    assert!(parse_event("okko").is_none());
    assert!(parse_event("okko:move:up:extra").is_none());
    assert!(parse_event("okko:connect:up").is_none());
    assert!(parse_event("a:b:c:d:e").is_none());
}

#[test]
fn empty_tokens_are_dropped() {
    assert!(parse_event("").is_none());
    assert!(parse_event(":connect").is_none());
    assert!(parse_event("okko:").is_none());
    assert!(parse_event("   :connect").is_none());
    assert!(parse_event("okko:   ").is_none());
    assert!(parse_event("okko:move:").is_none());
    assert!(parse_event(":").is_none());
}

#[test]
fn non_ascii_names_survive_decoding() {
    expect_connected("f\u{00f6}ldv\u{00e1}ri:connect", "f\u{00f6}ldv\u{00e1}ri");
    expect_move("\u{043c}\u{0438}\u{043a}\u{0430}:move:down", "\u{043c}\u{0438}\u{043a}\u{0430}", Direction::Down);
}
