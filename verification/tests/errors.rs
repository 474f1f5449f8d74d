use tic_tac_toe_nd::{Error, IndexError, PlaceError};

#[test]
fn index_error_messages() {
    assert_eq!(
        IndexError::OutOfBounds.message(),
        "given position exceeds bounds of board"
    );
    assert_eq!(
        IndexError::OutOfDimension.message(),
        "not enough or too few dimensions given in position slice"
    );
}

#[test]
fn place_error_messages() {
    assert_eq!(
        PlaceError::Unsupported.message(),
        "position is not supported by previous pieces"
    );
    assert_eq!(PlaceError::Occupied.message(), "position is already occupied");
}

#[test]
fn error_messages_name_the_family() {
    assert_eq!(
        Error::PlaceError(PlaceError::Unsupported).message(),
        "Placement error: position is not supported by previous pieces"
    );
    assert_eq!(
        Error::PlaceError(PlaceError::Occupied).message(),
        "Placement error: position is already occupied"
    );
    assert_eq!(
        Error::IndexError(IndexError::OutOfBounds).message(),
        "Index error: given position exceeds bounds of board"
    );
    assert_eq!(
        Error::IndexError(IndexError::OutOfDimension).message(),
        "Index error: not enough or too few dimensions given in position slice"
    );
}

#[test]
fn errors_convert_into_the_common_error() {
    assert_eq!(
        Error::from(IndexError::OutOfBounds),
        Error::IndexError(IndexError::OutOfBounds)
    );
    assert_eq!(
        Error::from(IndexError::OutOfDimension),
        Error::IndexError(IndexError::OutOfDimension)
    );
    assert_eq!(
        Error::from(PlaceError::Occupied),
        Error::PlaceError(PlaceError::Occupied)
    );
    let converted: Error = PlaceError::Unsupported.into();
    assert_eq!(converted, Error::PlaceError(PlaceError::Unsupported));
}
