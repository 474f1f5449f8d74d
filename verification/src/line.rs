//! Winning lines.
//!
//! A line through a cell is that cell and the two cells reached by stepping
//! once and twice along a nonzero direction, wrapping at the edges. Because
//! the board is three cells wide, every row, column and diagonal through the
//! cell is such a line, from whichever of its cells one starts. The wrapping
//! also admits the lines that leave the board on one side and enter it again
//! on the other. A player wins at a cell when some line through it holds
//! that player's pieces only.

use vstd::prelude::*;
use vstd::arithmetic::power::pow;
use crate::direction::{
    code_of, direction_of, half, is_zero, opposite, step, valid_direction,
    lemma_code_of_opposite, lemma_direction_of_code_of, lemma_half_holds_every_pair,
    lemma_step_opposite,
};
use crate::error::{Error, IndexError};
use crate::position::{
    in_bounds, index_of, offset_of, lemma_offset_of_injective, lemma_offset_of_range,
};

verus! {

/// The cell at `p` is occupied, and the two cells that follow it along `d`
/// hold the same player.
pub open spec fn line_owned(cells: Seq<u8>, p: Seq<u8>, d: Seq<i8>) -> bool {
    let owner = cells[offset_of(p)];
    &&& owner != 0
    &&& cells[offset_of(step(p, d))] == owner
    &&& cells[offset_of(step(step(p, d), d))] == owner
}

/// Some line through `p` is owned by one player.
pub open spec fn wins_at(cells: Seq<u8>, p: Seq<u8>) -> bool {
    exists|d: Seq<i8>|
        valid_direction(p.len(), d) && !is_zero(d) && #[trigger] line_owned(cells, p, d)
}

/// What checking the line from `p` along `d` yields on a board with
/// `dimension` axes. A direction of another length than `p` is refused before
/// `p` itself is looked at.
pub open spec fn line_outcome(dimension: nat, cells: Seq<u8>, p: Seq<u8>, d: Seq<i8>) -> Result<
    bool,
    Error,
> {
    if p.len() != d.len() {
        Err(Error::IndexError(IndexError::OutOfDimension))
    } else {
        match index_of(dimension, p) {
            Err(e) => Err(Error::IndexError(e)),
            Ok(_) => Ok(line_owned(cells, p, d)),
        }
    }
}

/// What looking for a win at `p` yields on a board with `dimension` axes.
pub open spec fn win_outcome(dimension: nat, cells: Seq<u8>, p: Seq<u8>) -> Result<bool, Error> {
    match index_of(dimension, p) {
        Err(e) => Err(Error::IndexError(e)),
        Ok(_) => Ok(wins_at(cells, p)),
    }
}

/// A line is owned along a direction exactly when it is owned along the
/// opposite direction: both name the same three cells.
pub proof fn lemma_line_owned_opposite(cells: Seq<u8>, p: Seq<u8>, d: Seq<i8>)
    requires
        valid_direction(p.len(), d),
    ensures
        line_owned(cells, p, opposite(d)) == line_owned(cells, p, d),
{
    lemma_step_opposite(p, d);
}

/// The three cells of a line are three different cells.
pub proof fn lemma_line_cells_distinct(p: Seq<u8>, d: Seq<i8>)
    requires
        in_bounds(p),
        valid_direction(p.len(), d),
        !is_zero(d),
    ensures
        offset_of(p) != offset_of(step(p, d)),
        offset_of(p) != offset_of(step(step(p, d), d)),
        offset_of(step(p, d)) != offset_of(step(step(p, d), d)),
{
    let once = step(p, d);
    let twice = step(once, d);
    let i = choose|i: int| 0 <= i < d.len() && d[i] != 0;
    assert(-1 <= d[i] <= 1);
    assert(p[i] < 3);
    assert(once[i] == (p[i] + d[i]) % 3);
    assert(twice[i] == (once[i] + d[i]) % 3);
    assert(p[i] != once[i] && p[i] != twice[i] && once[i] != twice[i]);
    if offset_of(p) == offset_of(once) {
        lemma_offset_of_injective(p, once);
    }
    if offset_of(p) == offset_of(twice) {
        lemma_offset_of_injective(p, twice);
    }
    if offset_of(once) == offset_of(twice) {
        lemma_offset_of_injective(once, twice);
    }
}

/// To find a win it is enough to try the directions numbered below
/// `half(dimension)`: if none of them owns its line, no direction does.
pub proof fn lemma_half_of_directions_suffices(cells: Seq<u8>, p: Seq<u8>)
    requires
        forall|code: int|
            0 <= code < half(p.len()) ==> !line_owned(
                cells,
                p,
                #[trigger] direction_of(p.len(), code),
            ),
    ensures
        !wins_at(cells, p),
{
    if wins_at(cells, p) {
        let d = choose|d: Seq<i8>|
            valid_direction(p.len(), d) && !is_zero(d) && #[trigger] line_owned(cells, p, d);
        let back = opposite(d);
        lemma_half_holds_every_pair(d);
        lemma_line_owned_opposite(cells, p, d);
        lemma_direction_of_code_of(d);
        lemma_code_of_opposite(d);
        lemma_direction_of_code_of(back);
        if 0 <= code_of(d) < half(p.len()) {
            assert(direction_of(p.len(), code_of(d)) == d);
        } else {
            assert(direction_of(p.len(), code_of(back)) == back);
        }
    }
}

/// A board with at most two occupied cells holds no owned line.
pub proof fn lemma_two_pieces_do_not_win(cells: Seq<u8>, p: Seq<u8>, a: int, b: int)
    requires
        in_bounds(p),
        forall|k: int| 0 <= k < cells.len() && cells[k] != 0 ==> k == a || k == b,
        cells.len() == pow(3, p.len()),
    ensures
        !wins_at(cells, p),
{
    if wins_at(cells, p) {
        let d = choose|d: Seq<i8>|
            valid_direction(p.len(), d) && !is_zero(d) && #[trigger] line_owned(cells, p, d);
        lemma_line_cells_distinct(p, d);
        lemma_offset_of_range(p);
        lemma_offset_of_range(step(p, d));
        lemma_offset_of_range(step(step(p, d), d));
    }
}

} // verus!
