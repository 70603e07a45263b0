use game_2048_engine::matrix::{
    from_u16, mirror_h, monotonicity, smoothness, snakeiness, std_dev, transpose,
};

const BOARD_SIZE: usize = 4;

#[test]
fn transpose_test() {
    let mut actual = [[0u8; BOARD_SIZE]; BOARD_SIZE];
    actual[0][1] = 1;
    actual[2][3] = 2;
    transpose(&mut actual);
    let mut excepted = [[0u8; BOARD_SIZE]; BOARD_SIZE];
    excepted[1][0] = 1;
    excepted[3][2] = 2;
    assert_eq!(actual, excepted);
}

#[test]
fn smoothness_monotone0_test() {
    let board = [[0u8; BOARD_SIZE]; BOARD_SIZE];
    assert_eq!(monotonicity(&board), 8);
}

#[test]
fn smoothness_monotone1_test() {
    let mut board = [[0u8; BOARD_SIZE]; BOARD_SIZE];
    board[0] = [0, 0, 1, 1];
    assert_eq!(monotonicity(&board), 8);
}

#[test]
fn smoothness_monotone2_test() {
    let mut board = [[0u8; BOARD_SIZE]; BOARD_SIZE];
    board[0] = [0, 0, 1, 2];
    assert_eq!(monotonicity(&board), 8);
}

#[test]
fn smoothness_monotone3_test() {
    let mut board = [[0u8; BOARD_SIZE]; BOARD_SIZE];
    board[0] = [1, 1, 0, 0];
    assert_eq!(monotonicity(&board), 8);
}

#[test]
fn smoothness_monotone4_test() {
    let mut board = [[0u8; BOARD_SIZE]; BOARD_SIZE];
    board[0] = [2, 1, 0, 0];
    assert_eq!(monotonicity(&board), 8);
}

#[test]
fn smoothness_monotone6_test() {
    let mut board = [[16u8; BOARD_SIZE]; BOARD_SIZE];
    board[0] = [2, 1, 0, 0];
    assert_eq!(monotonicity(&board), 8);
}

#[test]
fn smoothness_monotone7_test() {
    let mut board = [[16u8; BOARD_SIZE]; BOARD_SIZE];
    board[0] = [0, 0, 1, 2];
    assert_eq!(monotonicity(&board), 8);
}

#[test]
fn smoothness_nonmonotone0_test() {
    let mut board = [[0u8; BOARD_SIZE]; BOARD_SIZE];
    board[0] = [0, 0, 1, 0];
    assert_eq!(monotonicity(&board), 7);
}

#[test]
fn smoothness_nonmonotone1_test() {
    let mut board = [[16u8; BOARD_SIZE]; BOARD_SIZE];
    board[0] = [0, 0, 1, 0];
    assert_eq!(monotonicity(&board), 7);
}

#[test]
fn smoothness_smooth0_test() {
    let board = [[0u8; BOARD_SIZE]; BOARD_SIZE];
    assert_eq!(smoothness(&board), 0);
}

#[test]
fn smoothness_smooth16_test() {
    let board = [[16u8; BOARD_SIZE]; BOARD_SIZE];
    assert_eq!(smoothness(&board), 0);
}

#[test]
fn smoothness_unsmooth_test() {
    let mut board = [[0u8; BOARD_SIZE]; BOARD_SIZE];
    for j in 0..BOARD_SIZE {
        for i in 0..BOARD_SIZE {
            if j + i & 1 == 1 {
                board[j][i] = 16;
            }
        }
    }
    assert_eq!(smoothness(&board), 384);
}

#[test]
fn snakeiness0_test() {
    let board = [[0u8; BOARD_SIZE]; BOARD_SIZE];
    assert_eq!(snakeiness(&board), 0);
}

#[test]
fn snakeiness_asc_test() {
    let mut board = [[0u8; BOARD_SIZE]; BOARD_SIZE];
    for j in 0..BOARD_SIZE {
        for i in 0..BOARD_SIZE {
            board[j][i] = (j + i + 1) as u8;
        }
    }
    assert_eq!(snakeiness(&board), 13046);
}

#[test]
fn snakeiness_desc_test() {
    let mut board = [[0u8; BOARD_SIZE]; BOARD_SIZE];
    for j in 0..BOARD_SIZE {
        for i in 0..BOARD_SIZE {
            board[j][i] = (16 - j + i + 1) as u8;
        }
    }
    assert_eq!(snakeiness(&board), 55634);
}

#[test]
fn snakeiness_full_test() {
    let board = [[16u8; BOARD_SIZE]; BOARD_SIZE];
    assert_eq!(snakeiness(&board), 52416);
}

#[test]
fn std_dev_test() {
    let mut board = [[8u8; BOARD_SIZE]; BOARD_SIZE];
    board[0][0] = 4;
    assert_eq!(std_dev(&board), 112316);
}

#[test]
fn mirror_h_test() {
    let mut actual = [[0u8; BOARD_SIZE]; BOARD_SIZE];
    actual[0][1] = 1;
    actual[1][2] = 2;
    mirror_h(&mut actual);
    let mut excepted = [[0u8; BOARD_SIZE]; BOARD_SIZE];
    excepted[3][1] = 1;
    excepted[2][2] = 2;
    assert_eq!(actual, excepted);
}

#[test]
fn from_u16_round_trip() {
    let mut row = [0u8; 4];
    from_u16(&mut row, 0x1234);
    assert_eq!(row, [1, 2, 3, 4]);
}
