use game_2048_engine::direction::Direction;
use game_2048_engine::game::Game;

#[test]
fn should_can_play() {
    let mut game = Game::start_new(3);
    game.board = [[1, 2, 1, 2], [2, 1, 2, 1], [1, 0, 1, 2], [2, 1, 2, 1]];
    assert!(game.can_move());

    let mut game = Game::start_new(3);
    game.board = [[3, 2, 1, 1], [1, 1, 2, 2], [3, 2, 1, 1], [2, 1, 2, 1]];
    assert!(game.can_move());
}

#[test]
fn should_lose_game() {
    let mut game = Game::start_new(3);
    game.board = [[1, 2, 1, 2], [2, 1, 2, 1], [1, 2, 1, 2], [2, 1, 2, 1]];
    assert!(!game.can_move());
}

#[test]
fn should_slide_left_with_zero_start() {
    let mut game = Game::start_new(3);
    game.board = [[1, 2, 1, 2], [0, 1, 2, 1], [1, 2, 1, 2], [2, 1, 2, 1]];
    assert!(game.human_move(Direction::Left));
}

#[test]
fn should_slide_left_with_zero_end() {
    let mut game = Game::start_new(3);
    game.board = [[1, 2, 1, 2], [2, 1, 2, 0], [1, 2, 1, 2], [2, 1, 2, 1]];
    assert!(!game.human_move(Direction::Left));
}

#[test]
fn should_slide_left_with_merge() {
    let mut game = Game::start_new(3);
    game.board = [[3, 2, 1, 1], [1, 1, 2, 2], [3, 2, 1, 1], [2, 1, 2, 1]];
    assert!(game.human_move(Direction::Left));
}

#[test]
fn should_slide_right_with_zero_start() {
    let mut game = Game::start_new(3);
    game.board = [[1, 2, 1, 2], [2, 1, 2, 0], [1, 2, 1, 2], [2, 1, 2, 1]];
    assert!(game.human_move(Direction::Right));
}

#[test]
fn should_slide_right_with_zero_end() {
    let mut game = Game::start_new(3);
    game.board = [[1, 2, 1, 2], [0, 1, 2, 1], [1, 2, 1, 2], [2, 1, 2, 1]];
    assert!(!game.human_move(Direction::Right));
}

#[test]
fn should_slide_right_with_merge() {
    let mut game = Game::start_new(3);
    game.board = [[3, 2, 1, 1], [1, 1, 2, 2], [3, 2, 1, 1], [2, 1, 2, 1]];
    assert!(game.human_move(Direction::Right));
}

#[test]
fn should_slide_up_with_zero_start() {
    let mut game = Game::start_new(3);
    game.board = [[1, 2, 0, 2], [2, 1, 2, 1], [1, 2, 1, 2], [2, 1, 2, 1]];
    assert!(game.human_move(Direction::Up));
}

#[test]
fn should_slide_up_with_zero_end() {
    let mut game = Game::start_new(3);
    game.board = [[1, 2, 1, 2], [2, 1, 2, 1], [1, 2, 1, 2], [2, 1, 0, 1]];
    assert!(!game.human_move(Direction::Up));
}

#[test]
fn should_slide_up_with_merge() {
    let mut game = Game::start_new(3);
    game.board = [[1, 3, 2, 3], [2, 1, 2, 1], [1, 2, 1, 2], [2, 1, 2, 1]];
    assert!(game.human_move(Direction::Up));
}

#[test]
fn should_slide_down_with_zero_start() {
    let mut game = Game::start_new(3);
    game.board = [[1, 2, 1, 2], [2, 1, 2, 1], [1, 2, 1, 2], [2, 1, 0, 1]];
    assert!(game.human_move(Direction::Down));
}

#[test]
fn should_slide_down_with_zero_end() {
    let mut game = Game::start_new(3);
    game.board = [[1, 2, 0, 2], [2, 1, 2, 1], [1, 2, 1, 2], [2, 1, 2, 1]];
    assert!(!game.human_move(Direction::Down));
}

#[test]
fn should_slide_down_with_merge() {
    let mut game = Game::start_new(3);
    game.board = [[1, 2, 1, 2], [2, 1, 2, 1], [1, 2, 1, 2], [2, 3, 1, 3]];
    assert!(game.human_move(Direction::Down));
}

// Loss detection both ways: the checkerboard cannot move, and freeing one
// cell makes it movable again.
#[test]
fn checkerboard_loss_detection() {
    let mut game = Game::start_new(7);
    game.board = [[1, 2, 1, 2], [2, 1, 2, 1], [1, 2, 1, 2], [2, 1, 2, 1]];
    assert!(!game.can_move());
    game.board[1][3] = 0;
    assert!(game.can_move());
}

// Score accounting: [2,2,1,1] slid left becomes [3,2,0,0] and gains
// 2^3 + 2^2 = 12.
#[test]
fn score_accounting() {
    let mut game = Game::start_new(3);
    game.board = [[2, 2, 1, 1], [0, 0, 0, 0], [0, 0, 0, 0], [0, 0, 0, 0]];
    game.score = 0;
    assert!(game.human_move(Direction::Left));
    assert_eq!(game.board[0], [3, 2, 0, 0]);
    assert_eq!(game.score, 12);
}

// The canonical stuck fixture: every row packed and non-mergeable against
// the left edge, so sliding left moves nothing.
#[test]
fn stuck_against_left_edge() {
    let mut game = Game::start_new(3);
    game.board = [[1, 2, 1, 2], [2, 1, 2, 0], [1, 2, 1, 2], [2, 1, 2, 1]];
    assert!(!game.human_move(Direction::Left));
    assert_eq!(game.board, [[1, 2, 1, 2], [2, 1, 2, 0], [1, 2, 1, 2], [2, 1, 2, 1]]);
}
