use tic_tac_toe_nd::{Board, Error, IndexError, PlaceError};

#[test]
fn create_board() {
    let board = Board::new(3);
    let expected = [0_u8; 3_usize.pow(3)];
    let actual = &board.data;

    assert_eq!(actual.len(), expected.len());
    assert!(expected.iter().zip(actual.iter()).all(|(a, b)| a == b));
}

#[test]
fn get() {
    let mut board = Board::new(4);
    let expected = 4;

    // 0 1 2 |  9 10 11 | 18 19 20 \
    // 3 4 5 | 12 13 14 | 21 22 23 |
    // 6 7 8 | 15 16 17 | 24 25 26 / first cube of the 4d board; the second cube starts at 27
    board.data[27] = expected;
    let actual = board.get(&[0, 0, 0, 1]).unwrap();

    assert_eq!(actual, expected);
}

#[test]
fn get_mut() {
    let mut board = Board::new(6);
    let expected = 7;
    let pos = [0, 0, 0, 0, 2, 0];

    *board.get_mut(&pos).unwrap() = expected;

    let actual = board.get(&pos).unwrap();

    assert_eq!(actual, expected);
}

#[test]
fn get_mut_refuses_coordinate_three() {
    let mut board = Board::new(6);
    let pos = [0, 0, 0, 0, 3, 0];

    assert_eq!(board.get_mut(&pos).unwrap_err(), IndexError::OutOfBounds);
    assert_eq!(board.get(&pos), Err(IndexError::OutOfBounds));
    assert!(board.data.iter().all(|cell| *cell == 0));
}

#[test]
fn valid_placement() {
    let mut board = Board::new(3);
    let expected = [
        0, 0, 0, 1, 0, 0, 0, 0, 0,
        0, 0, 0, 1, 0, 0, 0, 0, 0,
    ];

    board.place_piece(1, &[0, 1, 0]).unwrap();
    board.place_piece(1, &[0, 1, 1]).unwrap();

    assert!(expected.iter().zip(board.data.iter()).all(|(a, b)| a == b));
    assert_eq!(&board.data[..18], &expected[..]);
    assert!(board.data[18..].iter().all(|cell| *cell == 0));
}

#[test]
fn unsupported_placement() {
    let mut board = Board::new(3);
    let expected = Error::PlaceError(PlaceError::Unsupported);

    let actual = board.place_piece(1, &[0, 1, 1]).unwrap_err();

    assert!(matches!(actual, Error::PlaceError(PlaceError::Unsupported)));
    assert_eq!(actual, expected);
}

#[test]
fn occupied_placement() {
    let mut board = Board::new(3);
    let expected = Error::PlaceError(PlaceError::Occupied);

    board.place_piece(1, &[0, 1, 0]).unwrap();
    let actual = board.place_piece(1, &[0, 1, 0]).unwrap_err();

    assert!(matches!(actual, Error::PlaceError(PlaceError::Occupied)));
    assert_eq!(actual, expected);
}

#[test]
fn win_dir_straight() {
    let mut board = Board::new(3);
    let expected = true;

    board.place_piece(1, &[0, 0, 0]).unwrap();
    board.place_piece(1, &[0, 1, 0]).unwrap();
    board.place_piece(1, &[0, 2, 0]).unwrap();

    let actual = board.check_win_dir(&[0, 0, 0], &[0, 1, 0]).unwrap();

    assert_eq!(actual, expected);
}

#[test]
fn win_dir_diag() {
    let mut board = Board::new(3);
    let expected = true;

    board.place_piece(1, &[0, 0, 0]).unwrap();
    board.place_piece(1, &[1, 1, 0]).unwrap();
    board.place_piece(1, &[2, 2, 0]).unwrap();

    let actual = board.check_win_dir(&[0, 0, 0], &[1, 1, 0]).unwrap();

    assert_eq!(actual, expected);
}

#[test]
fn win_dir_loop() {
    let mut board = Board::new(3);
    let expected = true;

    board.place_piece(1, &[0, 0, 0]).unwrap();
    board.place_piece(1, &[1, 1, 0]).unwrap();
    board.place_piece(1, &[2, 2, 0]).unwrap();

    let actual = board.check_win_dir(&[2, 2, 0], &[1, 1, 0]).unwrap();

    assert_eq!(actual, expected);
}

#[test]
fn win_dir_no_win() {
    let mut board = Board::new(3);
    let expected = false;

    board.place_piece(1, &[0, 0, 0]).unwrap();

    let actual = board.check_win_dir(&[0, 0, 0], &[1, 1, 0]).unwrap();

    assert_eq!(actual, expected);
}

#[test]
fn win_no_win() {
    let mut board = Board::new(2);
    let expected = false;

    let actual = board.place_piece(1, &[0, 2]).unwrap();

    assert_eq!(actual, expected);
}

#[test]
fn win_straight() {
    let mut board = Board::new(2);
    let expected = true;

    board.place_piece(1, &[0, 0]).unwrap();
    board.place_piece(1, &[0, 1]).unwrap();
    let actual = board.place_piece(1, &[0, 2]).unwrap();

    assert_eq!(actual, expected);
}

#[test]
fn win_diag() {
    let mut board = Board::new(2);
    let expected = true;

    board.place_piece(1, &[0, 0]).unwrap();
    board.place_piece(1, &[1, 1]).unwrap();
    let actual = board.place_piece(1, &[2, 2]).unwrap();

    assert_eq!(actual, expected);
}
