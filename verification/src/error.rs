//! Error values returned by board operations.

use vstd::prelude::*;
use vstd::std_specs::convert::FromSpecImpl;
use vstd::string::StringExecFns;

verus! {

/// Why a position could not be turned into a cell of the board.
#[derive(Debug, Clone, Copy, PartialEq, Eq, Structural)]
pub enum IndexError {
    /// The position does not have one coordinate per axis of the board.
    OutOfDimension,
    /// Some coordinate lies outside `0..3`.
    OutOfBounds,
}

/// Why a piece could not be placed.
#[derive(Debug, Clone, Copy, PartialEq, Eq, Structural)]
pub enum PlaceError {
    /// The cell below the target, along its highest nonzero axis, is empty.
    Unsupported,
    /// The target cell already holds a piece.
    Occupied,
}

/// Any failure of a placement.
#[derive(Debug, Clone, Copy, PartialEq, Eq, Structural)]
pub enum Error {
    PlaceError(PlaceError),
    IndexError(IndexError),
}

impl IndexError {
    /// The text of this error.
    pub open spec fn spec_message(self) -> Seq<char> {
        match self {
            IndexError::OutOfBounds => "given position exceeds bounds of board"@,
            IndexError::OutOfDimension => "not enough or too few dimensions given in position slice"@,
        }
    }

    /// The text shown to a player for this error.
    pub fn message(&self) -> (text: String)
        ensures
            text@ == self.spec_message(),
    {
        match self {
            IndexError::OutOfBounds => "given position exceeds bounds of board".to_owned(),
            IndexError::OutOfDimension => "not enough or too few dimensions given in position slice".to_owned(),
        }
    }
}

impl PlaceError {
    /// The text of this error.
    pub open spec fn spec_message(self) -> Seq<char> {
        match self {
            PlaceError::Unsupported => "position is not supported by previous pieces"@,
            PlaceError::Occupied => "position is already occupied"@,
        }
    }

    /// The text shown to a player for this error.
    pub fn message(&self) -> (text: String)
        ensures
            text@ == self.spec_message(),
    {
        match self {
            PlaceError::Unsupported => "position is not supported by previous pieces".to_owned(),
            PlaceError::Occupied => "position is already occupied".to_owned(),
        }
    }
}

impl Error {
    /// The text of this error: the family it belongs to, then the text of
    /// the error inside.
    pub open spec fn spec_message(self) -> Seq<char> {
        match self {
            Error::PlaceError(e) => "Placement error: "@ + e.spec_message(),
            Error::IndexError(e) => "Index error: "@ + e.spec_message(),
        }
    }

    /// The text shown to a player for this error.
    pub fn message(&self) -> (text: String)
        ensures
            text@ == self.spec_message(),
    {
        match self {
            Error::PlaceError(e) => {
                let mut text = "Placement error: ".to_owned();
                let inner = e.message();
                text.append(inner.as_str());
                text
            },
            Error::IndexError(e) => {
                let mut text = "Index error: ".to_owned();
                let inner = e.message();
                text.append(inner.as_str());
                text
            },
        }
    }
}

impl From<IndexError> for Error {
    fn from(value: IndexError) -> (e: Error) {
        Error::IndexError(value)
    }
}

impl FromSpecImpl<IndexError> for Error {
    open spec fn obeys_from_spec() -> bool {
        true
    }

    open spec fn from_spec(value: IndexError) -> Error {
        Error::IndexError(value)
    }
}

impl From<PlaceError> for Error {
    fn from(value: PlaceError) -> (e: Error) {
        Error::PlaceError(value)
    }
}

impl FromSpecImpl<PlaceError> for Error {
    open spec fn obeys_from_spec() -> bool {
        true
    }

    open spec fn from_spec(value: PlaceError) -> Error {
        Error::PlaceError(value)
    }
}

} // verus!
