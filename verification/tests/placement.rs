use tic_tac_toe_nd::placement::highest_nonzero_axis;
use tic_tac_toe_nd::{Board, Error, IndexError, PlaceError};

#[test]
fn highest_axis_is_the_last_nonzero_coordinate() {
    assert_eq!(highest_nonzero_axis(&[]), 0);
    assert_eq!(highest_nonzero_axis(&[0]), 0);
    assert_eq!(highest_nonzero_axis(&[2]), 0);
    assert_eq!(highest_nonzero_axis(&[0, 0, 0]), 0);
    assert_eq!(highest_nonzero_axis(&[1, 0, 0]), 0);
    assert_eq!(highest_nonzero_axis(&[1, 2, 0]), 1);
    assert_eq!(highest_nonzero_axis(&[0, 0, 1]), 2);
    assert_eq!(highest_nonzero_axis(&[1, 0, 2, 0, 1, 0]), 4);
    assert_eq!(highest_nonzero_axis(&[0, 0, 0, 0, 0, 7]), 5);
}

#[test]
fn ground_plane_needs_no_support() {
    for x in 0..3u8 {
        for y in 0..3u8 {
            let mut board = Board::new(4);
            // Pieces elsewhere, set directly, do not matter.
            board.data[40] = 2;
            board.data[80] = 2;
            assert_eq!(board.place_piece(1, &[x, y, 0, 0]), Ok(false));
            assert_eq!(board.get(&[x, y, 0, 0]), Ok(1));
        }
    }
}

#[test]
fn cell_above_an_empty_cell_is_unsupported() {
    let mut board = Board::new(4);
    let unsupported = Err(Error::PlaceError(PlaceError::Unsupported));
    assert_eq!(board.place_piece(1, &[0, 0, 1, 0]), unsupported);
    assert_eq!(board.place_piece(1, &[1, 2, 2, 0]), unsupported);
    assert_eq!(board.place_piece(1, &[0, 0, 0, 1]), unsupported);
    assert_eq!(board.place_piece(1, &[0, 0, 1, 1]), unsupported);
    assert_eq!(board.place_piece(1, &[2, 2, 2, 2]), unsupported);
    assert!(board.data.iter().all(|cell| *cell == 0));
}

#[test]
fn support_is_the_cell_below_on_the_highest_axis() {
    let mut board = Board::new(4);
    assert_eq!(board.place_piece(1, &[1, 1, 0, 0]), Ok(false));
    assert_eq!(board.place_piece(2, &[1, 1, 1, 0]), Ok(false));
    assert_eq!(board.place_piece(1, &[1, 1, 2, 0]), Ok(false));
    // On the fourth axis the supporting cell keeps the third coordinate.
    assert_eq!(
        board.place_piece(2, &[1, 1, 0, 2]),
        Err(Error::PlaceError(PlaceError::Unsupported))
    );
    assert_eq!(board.place_piece(2, &[1, 1, 1, 1]), Ok(false));
    assert_eq!(board.place_piece(1, &[1, 1, 1, 2]), Ok(false));
    assert_eq!(
        board.place_piece(1, &[1, 1, 2, 2]),
        Err(Error::PlaceError(PlaceError::Unsupported))
    );
    assert_eq!(board.get(&[1, 1, 1, 2]), Ok(1));
    assert_eq!(board.data.iter().filter(|cell| **cell != 0).count(), 5);
}

#[test]
fn occupied_cell_is_refused_and_board_unchanged() {
    let mut board = Board::new(3);
    board.place_piece(1, &[2, 1, 0]).unwrap();
    board.place_piece(2, &[2, 1, 1]).unwrap();
    let before = board.data.clone();
    let occupied = Err(Error::PlaceError(PlaceError::Occupied));
    assert_eq!(board.place_piece(2, &[2, 1, 0]), occupied);
    assert_eq!(board.place_piece(1, &[2, 1, 0]), occupied);
    assert_eq!(board.place_piece(1, &[2, 1, 1]), occupied);
    assert_eq!(board.data, before);
}

#[test]
fn missing_support_is_reported_before_an_occupied_cell() {
    let mut board = Board::new(3);
    *board.get_mut(&[0, 0, 1]).unwrap() = 1;
    let before = board.data.clone();
    assert_eq!(
        board.place_piece(2, &[0, 0, 1]),
        Err(Error::PlaceError(PlaceError::Unsupported))
    );
    assert_eq!(board.data, before);
}

#[test]
fn position_that_cannot_be_indexed_is_refused() {
    let mut board = Board::new(3);
    let dimension = Err(Error::IndexError(IndexError::OutOfDimension));
    let bounds = Err(Error::IndexError(IndexError::OutOfBounds));
    assert_eq!(board.place_piece(1, &[]), dimension);
    assert_eq!(board.place_piece(1, &[0, 0]), dimension);
    assert_eq!(board.place_piece(1, &[0, 0, 0, 0]), dimension);
    assert_eq!(board.place_piece(1, &[0, 0, 0, 1]), dimension);
    assert_eq!(board.place_piece(1, &[3, 0, 0]), bounds);
    assert_eq!(board.place_piece(1, &[0, 3, 0]), bounds);
    assert_eq!(board.place_piece(1, &[0, 0, 4]), bounds);
    assert_eq!(board.place_piece(1, &[3, 0, 1]), bounds);
    assert!(board.data.iter().all(|cell| *cell == 0));
}

#[test]
fn support_is_looked_at_before_the_target() {
    let mut board = Board::new(3);
    // The target has a coordinate out of range, its support has not.
    assert_eq!(
        board.place_piece(1, &[0, 0, 3]),
        Err(Error::PlaceError(PlaceError::Unsupported))
    );
    *board.get_mut(&[0, 0, 2]).unwrap() = 2;
    assert_eq!(
        board.place_piece(1, &[0, 0, 3]),
        Err(Error::IndexError(IndexError::OutOfBounds))
    );
    assert_eq!(board.data.iter().filter(|cell| **cell != 0).count(), 1);
}

#[test]
fn accepted_move_writes_the_player_into_one_cell() {
    let mut board = Board::new(3);
    assert_eq!(board.place_piece(7, &[1, 2, 0]), Ok(false));
    assert_eq!(board.data[7], 7);
    assert_eq!(board.place_piece(255, &[1, 2, 1]), Ok(false));
    assert_eq!(board.data[16], 255);
    assert_eq!(board.data.iter().filter(|cell| **cell != 0).count(), 2);
}

#[test]
fn piece_of_nobody_leaves_the_cell_empty() {
    let mut board = Board::new(2);
    assert_eq!(board.place_piece(0, &[1, 1]), Ok(false));
    assert!(board.data.iter().all(|cell| *cell == 0));
}
