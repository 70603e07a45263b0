use game_2048_engine::direction::Direction;
use game_2048_engine::input::parse_input;
use game_2048_engine::engine::Engine;
use game_2048_engine::engine_config::{Algorithm, EngineConfig, RandomCompleteness};
use game_2048_engine::evaluation::Weights;
use game_2048_engine::game::Game;
use game_2048_engine::moves::Move;
use game_2048_engine::slide_cache::SlideCache;

fn tuned_weights() -> Weights {
    Weights {
        max_cell: 30,
        max_score: 10,
        monotonicity: 100,
        smoothness: 50,
        std_dev: 0,
        free_space: 300,
        snakeiness: 0,
    }
    .normalize()
}

fn config(algorithm: Algorithm, depth: u16) -> EngineConfig {
    EngineConfig {
        depth,
        eval_fn: tuned_weights(),
        algorithm,
        random_mode: RandomCompleteness::Full,
        order_moves: false,
    }
}

fn fixture_game() -> Game {
    let mut game = Game::start_new(3);
    game.board = [[1, 1, 2, 3], [0, 2, 0, 1], [0, 0, 1, 0], [0, 0, 0, 1]];
    game.score = 0;
    game.move_count = 0;
    game
}

// Minimax and negamax pick the same move with sign-consistent scores, and
// each pruned variant returns exactly its unpruned variant's move and
// score, on a fixed small board and depth.
#[test]
fn minimax_negamax_equivalence() {
    let cache = SlideCache::create_cache();
    let game = fixture_game();

    let (dir_mm, score_mm, _) =
        Engine::from_game(&game, config(Algorithm::Minimax, 3)).best_move(&cache);
    let (dir_ng, score_ng, _) =
        Engine::from_game(&game, config(Algorithm::Negamax, 3)).best_move(&cache);
    assert_eq!(dir_mm, dir_ng);
    assert_eq!(score_mm, score_ng);
}

#[test]
fn alphabeta_exactness() {
    let cache = SlideCache::create_cache();
    let game = fixture_game();

    let (dir_mm, score_mm, _) =
        Engine::from_game(&game, config(Algorithm::Minimax, 3)).best_move(&cache);
    let (dir_mab, score_mab, _) =
        Engine::from_game(&game, config(Algorithm::MinimaxAlphaBeta, 3)).best_move(&cache);
    assert_eq!(dir_mm, dir_mab);
    assert_eq!(score_mm, score_mab);

    let (dir_ng, score_ng, _) =
        Engine::from_game(&game, config(Algorithm::Negamax, 3)).best_move(&cache);
    let (dir_nab, score_nab, _) =
        Engine::from_game(&game, config(Algorithm::NegamaxAlphaBeta, 3)).best_move(&cache);
    assert_eq!(dir_ng, dir_nab);
    assert_eq!(score_ng, score_nab);
}

// Pruning only cuts work, never nodes from the tree: the pruned search
// reports fewer or equally many visits.
#[test]
fn alphabeta_prunes_but_agrees() {
    let cache = SlideCache::create_cache();
    let game = fixture_game();

    let (dir_plain, score_plain, stat_plain) =
        Engine::from_game(&game, config(Algorithm::Minimax, 4)).best_move(&cache);
    let (dir_ab, score_ab, stat_ab) =
        Engine::from_game(&game, config(Algorithm::MinimaxAlphaBeta, 4)).best_move(&cache);
    assert_eq!(dir_plain, dir_ab);
    assert_eq!(score_plain, score_ab);
    assert!(stat_ab.total_nodes <= stat_plain.total_nodes);
    assert!(stat_ab.cut_nodes >= 1);
}

// After committing a human move and the real spawn, the reconciled root's
// board equals the board from applying the same move and placement to a
// fresh copy of the pre-move position.
#[test]
fn subtree_reuse_matches_direct_application() {
    let cache = SlideCache::create_cache();
    let mut game = fixture_game();
    let mut engine = Engine::from_game(&game, config(Algorithm::NegamaxAlphaBeta, 3));

    for _ in 0..3 {
        let (dir, _, _) = engine.best_move(&cache);
        assert!(game.human_move(dir));
        let (value, pos) = game.random_move().expect("game still in play");
        engine.make_random_move(Move::Random(value, pos));
        assert_eq!(engine.root.board.board, game.board);
        assert_eq!(engine.root.board.score, game.score);
        if game.state == game_2048_engine::game::State::Lose {
            break;
        }
    }
}

// Move ordering and the sampled chance policies still return a move the
// board accepts.
#[test]
fn other_policies_yield_legal_moves() {
    let cache = SlideCache::create_cache();

    let game = fixture_game();
    let mut ordered = EngineConfig {
        depth: 3,
        eval_fn: tuned_weights(),
        algorithm: Algorithm::MinimaxAlphaBeta,
        random_mode: RandomCompleteness::Ordered(6),
        order_moves: true,
    };
    let (dir, _, _) = Engine::from_game(&game, ordered).best_move(&cache);
    let mut replay = fixture_game();
    assert!(replay.human_move(dir));

    ordered = EngineConfig {
        depth: 3,
        eval_fn: tuned_weights(),
        algorithm: Algorithm::Negamax,
        random_mode: RandomCompleteness::MonteCarlo(5),
        order_moves: false,
    };
    let game = fixture_game();
    let (dir, _, _) = Engine::from_game(&game, ordered).best_move(&cache);
    let mut replay = fixture_game();
    assert!(replay.human_move(dir));
}

// Every accepted key maps to its direction; anything else is a no-op.
#[test]
fn parse_input_key_table() {
    assert_eq!(parse_input(&'w'), Some(Direction::Up));
    assert_eq!(parse_input(&'a'), Some(Direction::Left));
    assert_eq!(parse_input(&'s'), Some(Direction::Down));
    assert_eq!(parse_input(&'d'), Some(Direction::Right));
    assert_eq!(parse_input(&'k'), Some(Direction::Up));
    assert_eq!(parse_input(&'h'), Some(Direction::Left));
    assert_eq!(parse_input(&'j'), Some(Direction::Down));
    assert_eq!(parse_input(&'l'), Some(Direction::Right));
    assert_eq!(parse_input(&'\u{2191}'), Some(Direction::Up));
    assert_eq!(parse_input(&'\u{2190}'), Some(Direction::Left));
    assert_eq!(parse_input(&'\u{2193}'), Some(Direction::Down));
    assert_eq!(parse_input(&'\u{2192}'), Some(Direction::Right));
    assert_eq!(parse_input(&'x'), None);
}
