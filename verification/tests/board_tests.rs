use game_2048_engine::board::Board;
use game_2048_engine::direction::Direction;
use game_2048_engine::slide_cache::SlideCache;

// The table-driven board slide gives the same boards as the direct game
// slide on a merging position.
#[test]
fn board_slide_through_table() {
    let cache = SlideCache::create_cache();
    let mut b = Board::new();
    b.board = [[2, 2, 1, 1], [0, 0, 0, 0], [0, 0, 0, 0], [0, 0, 0, 0]];
    assert!(b.slide_to(Direction::Left, &cache));
    assert_eq!(b.board[0], [3, 2, 0, 0]);
    assert_eq!(b.score, 12);
    assert_eq!(b.move_count, 1);
}

#[test]
fn board_set_move_places_in_scan_order() {
    let mut b = Board::new();
    b.board = [[1, 0, 1, 0], [1, 1, 1, 1], [1, 1, 1, 1], [1, 1, 1, 1]];
    b.set_move((2, 1));
    assert_eq!(b.board[0], [1, 0, 1, 2]);
    assert_eq!(b.empty_count(), 1);
}

#[test]
fn board_max_cell_is_displayed_value() {
    let mut b = Board::new();
    b.board[2][1] = 5;
    assert_eq!(b.max_cell(), 32);
}
