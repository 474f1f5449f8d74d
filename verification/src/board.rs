//! The board: a hypercube of side length three stored as one flat buffer.

use vstd::prelude::*;
use vstd::arithmetic::power::{pow, lemma_pow_increases};
use vstd::pervasive::unreached;
use vstd::slice::slice_to_vec;
use crate::direction::{
    advance, direction_from_code, direction_of, half, step, lemma_below_half_is_nonzero,
    lemma_direction_of_valid,
};
use crate::error::{Error, IndexError, PlaceError};
use crate::line::{line_outcome, line_owned, win_outcome, lemma_half_of_directions_suffices};
use crate::placement::{
    cells_after_place, highest_nonzero_axis, place_outcome, lemma_highest_axis,
};
use crate::position::{
    in_bounds, index_of, offset_of, read_outcome, lemma_offset_of_range, lemma_pow3,
};

verus! {

/// A tic-tac-toe board with `dimension` axes of length three.
///
/// `data` holds one byte per cell, `0` for an empty cell and a player's
/// number otherwise. The cell at position `p` is stored at offset
/// [`offset_of`]`(p)`.
#[derive(Debug)]
pub struct Board {
    pub dimension: u8,
    pub data: Vec<u8>,
}

impl Board {
    /// The board has exactly one cell per position: `3^dimension` of them.
    pub open spec fn wf(&self) -> bool {
        self.data@.len() == pow(3, self.dimension as nat)
    }

    /// The content of the cell at `p`, or why `p` names no cell.
    pub open spec fn cell_at(&self, p: Seq<u8>) -> Result<u8, IndexError> {
        read_outcome(self.dimension as nat, self.data@, p)
    }

    /// The number of cells of a board with `dimension` axes, if a `usize`
    /// can hold it.
    pub fn checked_data_length(dimension: u8) -> (length: Option<usize>)
        ensures
            match length {
                Some(n) => n == pow(3, dimension as nat),
                None => pow(3, dimension as nat) > usize::MAX,
            },
    {
        let mut length: usize = 1;
        let mut i: u8 = 0;
        proof {
            lemma_pow3(0);
        }
        while i < dimension
            invariant
                i <= dimension,
                length == pow(3, i as nat),
            decreases dimension - i,
        {
            proof {
                lemma_pow3(i as nat);
            }
            match length.checked_mul(3) {
                Some(next) => {
                    length = next;
                },
                None => {
                    proof {
                        lemma_pow_increases(3, (i + 1) as nat, dimension as nat);
                    }
                    return None;
                },
            }
            i += 1;
        }
        Some(length)
    }

    /// The number of cells of a board with `dimension` axes.
    pub fn get_data_length(dimension: u8) -> (length: usize)
        requires
            pow(3, dimension as nat) <= usize::MAX,
        ensures
            length == pow(3, dimension as nat),
    {
        match Self::checked_data_length(dimension) {
            Some(length) => length,
            None => unreached(),
        }
    }

    /// An empty board with `dimension` axes.
    pub fn new(dimension: u8) -> (board: Board)
        requires
            pow(3, dimension as nat) <= usize::MAX,
        ensures
            board.wf(),
            board.dimension == dimension,
            board.data@ == Seq::new(pow(3, dimension as nat) as nat, |k: int| 0u8),
    {
        let length = Self::get_data_length(dimension);
        let data = vec![0u8; length];
        Board { dimension, data }
    }

    /// The flat offset of the cell at `pos`.
    ///
    /// Fails with `OutOfDimension` when `pos` does not have one coordinate
    /// per axis, and otherwise with `OutOfBounds` when a coordinate is not
    /// in `0..3`.
    pub fn offset(&self, pos: &[u8]) -> (r: Result<usize, IndexError>)
        requires
            self.wf(),
        ensures
            match r {
                Ok(k) => index_of(self.dimension as nat, pos@) == Ok::<int, IndexError>(k as int)
                    && k < self.data@.len(),
                Err(e) => index_of(self.dimension as nat, pos@) == Err::<int, IndexError>(e),
            },
    {
        if pos.len() != self.dimension as usize {
            return Err(IndexError::OutOfDimension);
        }
        let mut index: usize = 0;
        let mut weight: usize = 1;
        let mut i: usize = 0;
        proof {
            lemma_pow3(0);
        }
        while i < pos.len()
            invariant
                self.wf(),
                pos@.len() == self.dimension,
                i <= pos@.len(),
                in_bounds(pos@.take(i as int)),
                index == offset_of(pos@.take(i as int)),
                weight == pow(3, i as nat),
            decreases pos.len() - i,
        {
            let val = pos[i];
            if val >= 3 {
                return Err(IndexError::OutOfBounds);
            }
            proof {
                let before = pos@.take(i as int);
                let after = pos@.take(i + 1);
                assert(after.drop_last() =~= before);
                assert(after.last() == val);
                lemma_pow3(i as nat);
                lemma_pow_increases(3, (i + 1) as nat, pos@.len());
                assert(3 * weight <= self.data.len());
                lemma_offset_of_range(before);
                assert(weight * val <= 2 * weight && weight * val == val * weight)
                    by (nonlinear_arith)
                    requires
                        val <= 2,
                        weight >= 0,
                ;
                assert forall|j: int| 0 <= j < after.len() implies #[trigger] after[j] < 3 by {
                    if j < i {
                        assert(after[j] == before[j]);
                    }
                }
            }
            index += weight * (val as usize);
            weight *= 3;
            i += 1;
        }
        proof {
            assert(pos@.take(i as int) =~= pos@);
            lemma_offset_of_range(pos@);
        }
        Ok(index)
    }

    /// The value of the cell at `pos`.
    pub fn get(&self, pos: &[u8]) -> (r: Result<u8, IndexError>)
        requires
            self.wf(),
        ensures
            r == self.cell_at(pos@),
    {
        match self.offset(pos) {
            Ok(k) => Ok(self.data[k]),
            Err(e) => Err(e),
        }
    }

    /// Exclusive access to the cell at `pos`.
    ///
    /// On success the board afterwards differs from the board before in that
    /// one cell only, which holds whatever was last written through the
    /// returned reference. On failure the board is unchanged.
    pub fn get_mut(&mut self, pos: &[u8]) -> (r: Result<&mut u8, IndexError>)
        requires
            old(self).wf(),
        ensures
            final(self).wf(),
            final(self).dimension == old(self).dimension,
            match index_of(old(self).dimension as nat, pos@) {
                Ok(k) => r is Ok
                    && *r->Ok_0 == old(self).data@[k]
                    && final(self).data@ == old(self).data@.update(k, *final(r->Ok_0)),
                Err(e) => r is Err && r->Err_0 == e && final(self).data@ == old(self).data@,
            },
    {
        match self.offset(pos) {
            Ok(k) => Ok(&mut self.data[k]),
            Err(e) => Err(e),
        }
    }

    /// Places a piece of `player` at `position` and tells whether that wins.
    ///
    /// A cell above the ground plane is refused as `Unsupported` while the
    /// cell below it is empty, and an occupied cell as `Occupied`. A refused
    /// move leaves the board as it was.
    pub fn place_piece(&mut self, player: u8, position: &[u8]) -> (r: Result<bool, Error>)
        requires
            old(self).wf(),
        ensures
            final(self).wf(),
            final(self).dimension == old(self).dimension,
            r == place_outcome(old(self).dimension as nat, old(self).data@, player, position@),
            final(self).data@ == cells_after_place(
                old(self).dimension as nat,
                old(self).data@,
                player,
                position@,
            ),
    {
        let highest = highest_nonzero_axis(position);
        if highest > 1 {
            proof {
                lemma_highest_axis(position@);
            }
            let mut supporting = slice_to_vec(position);
            let below = position[highest] - 1;
            supporting.set(highest, below);
            match self.get(supporting.as_slice()) {
                Err(e) => {
                    return Err(Error::from(e));
                },
                Ok(support) => {
                    if support == 0 {
                        return Err(Error::from(PlaceError::Unsupported));
                    }
                },
            }
        }
        match self.get_mut(position) {
            Err(e) => {
                return Err(Error::from(e));
            },
            Ok(cell) => {
                if *cell != 0 {
                    proof {
                        let before = old(self).data@;
                        lemma_offset_of_range(position@);
                        assert(before.update(offset_of(position@), *cell) =~= before);
                    }
                    return Err(Error::from(PlaceError::Occupied));
                }
                *cell = player;
            },
        }
        self.is_win_at(position)
    }

    /// Tells whether some line through `pos` is owned by one player.
    ///
    /// Of every pair of opposite directions one is tried: the
    /// `(3^dimension - 1) / 2` directions numbered below the zero direction.
    pub fn is_win_at(&self, pos: &[u8]) -> (r: Result<bool, Error>)
        requires
            self.wf(),
        ensures
            r == win_outcome(self.dimension as nat, self.data@, pos@),
    {
        match self.offset(pos) {
            Err(e) => {
                return Err(Error::from(e));
            },
            Ok(_) => {},
        }
        proof {
            lemma_pow3(self.dimension as nat);
        }
        let directions: usize = (self.data.len() - 1) / 2;
        let mut code: usize = 0;
        while code < directions
            invariant
                self.wf(),
                index_of(self.dimension as nat, pos@) is Ok,
                directions == half(self.dimension as nat),
                code <= directions,
                forall|c: int|
                    0 <= c < code ==> !line_owned(
                        self.data@,
                        pos@,
                        #[trigger] direction_of(self.dimension as nat, c),
                    ),
            decreases directions - code,
        {
            let dir = direction_from_code(self.dimension, code);
            proof {
                lemma_direction_of_valid(self.dimension as nat, code as int);
                lemma_below_half_is_nonzero(self.dimension as nat, code as int);
            }
            match self.check_win_dir(pos, dir.as_slice()) {
                Ok(true) => {
                    return Ok(true);
                },
                Ok(false) => {},
                Err(e) => {
                    return Err(e);
                },
            }
            code += 1;
        }
        proof {
            lemma_half_of_directions_suffices(self.data@, pos@);
        }
        Ok(false)
    }

    /// Tells whether the cell at `pos` and the two cells that follow it along
    /// `dir`, wrapping at the edges of the board, hold one and the same
    /// player.
    pub fn check_win_dir(&self, pos: &[u8], dir: &[i8]) -> (r: Result<bool, Error>)
        requires
            self.wf(),
        ensures
            r == line_outcome(self.dimension as nat, self.data@, pos@, dir@),
    {
        if pos.len() != dir.len() {
            return Err(Error::from(IndexError::OutOfDimension));
        }
        let owner = match self.get(pos) {
            Err(e) => {
                return Err(Error::from(e));
            },
            Ok(owner) => owner,
        };
        if owner == 0 {
            return Ok(false);
        }
        let mut cursor = slice_to_vec(pos);
        let mut steps: u8 = 0;
        while steps < 2
            invariant
                self.wf(),
                steps <= 2,
                pos@.len() == dir@.len(),
                index_of(self.dimension as nat, pos@) is Ok,
                owner == self.data@[offset_of(pos@)],
                owner != 0,
                steps == 0 ==> cursor@ == pos@,
                steps >= 1 ==> self.data@[offset_of(step(pos@, dir@))] == owner,
                steps == 1 ==> cursor@ == step(pos@, dir@),
                steps == 2 ==> self.data@[offset_of(step(step(pos@, dir@), dir@))] == owner,
            decreases 2 - steps,
        {
            advance(&mut cursor, dir);
            match self.get(cursor.as_slice()) {
                Err(e) => {
                    return Err(Error::from(e));
                },
                Ok(cell) => {
                    if cell != owner {
                        return Ok(false);
                    }
                },
            }
            steps += 1;
        }
        Ok(true)
    }
}

} // verus!
