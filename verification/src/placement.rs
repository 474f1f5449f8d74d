//! The rules of placing a piece.
//!
//! The plane of the first two axes is the ground. A cell above the ground,
//! whose highest nonzero coordinate lies on the third axis or beyond, can be
//! taken only when the cell one step lower along that axis is occupied.

use vstd::prelude::*;
use vstd::arithmetic::power::pow;
use crate::direction::{is_zero, step, valid_direction};
use crate::error::{Error, PlaceError};
use crate::line::{
    line_owned, wins_at, lemma_line_cells_distinct, lemma_two_pieces_do_not_win,
};
use crate::position::{in_bounds, index_of, offset_of, valid_position, lemma_offset_of_range};

verus! {

/// The highest axis on which `p` has a nonzero coordinate, or `0` when it has
/// none.
pub open spec fn highest_axis(p: Seq<u8>) -> nat
    decreases p.len(),
{
    if p.len() == 0 {
        0
    } else if p.last() != 0 {
        (p.len() - 1) as nat
    } else {
        highest_axis(p.drop_last())
    }
}

/// `p` lies above the ground plane and so needs a supporting piece.
pub open spec fn needs_support(p: Seq<u8>) -> bool {
    highest_axis(p) > 1
}

/// The position that carries `p`: one step lower along the highest nonzero
/// axis of `p`.
pub open spec fn support_of(p: Seq<u8>) -> Seq<u8> {
    p.update(highest_axis(p) as int, (p[highest_axis(p) as int] - 1) as u8)
}

/// What placing a piece of `player` at `p` yields on a board with `dimension`
/// axes and the given cells: whether the move wins, or why it is refused.
///
/// The support is looked at first, then the target cell. So a position that
/// cannot be indexed is reported as such unless its supporting position can
/// be indexed and is empty, which is reported as `Unsupported`.
pub open spec fn place_outcome(dimension: nat, cells: Seq<u8>, player: u8, p: Seq<u8>) -> Result<
    bool,
    Error,
> {
    if needs_support(p) && index_of(dimension, support_of(p)) is Err {
        Err(Error::IndexError(index_of(dimension, support_of(p))->Err_0))
    } else if needs_support(p) && cells[index_of(dimension, support_of(p))->Ok_0] == 0 {
        Err(Error::PlaceError(PlaceError::Unsupported))
    } else {
        match index_of(dimension, p) {
            Err(e) => Err(Error::IndexError(e)),
            Ok(k) => if cells[k] != 0 {
                Err(Error::PlaceError(PlaceError::Occupied))
            } else {
                Ok(wins_at(cells.update(k, player), p))
            },
        }
    }
}

/// The cells after placing a piece of `player` at `p`: the target cell holds
/// the player when the move is accepted, and nothing changes when it is
/// refused.
pub open spec fn cells_after_place(dimension: nat, cells: Seq<u8>, player: u8, p: Seq<u8>) -> Seq<
    u8,
> {
    if place_outcome(dimension, cells, player, p) is Ok {
        cells.update(offset_of(p), player)
    } else {
        cells
    }
}

/// All coordinates above the highest axis are zero, and the coordinate on it
/// is nonzero unless the whole position is zero.
pub proof fn lemma_highest_axis(p: Seq<u8>)
    ensures
        p.len() > 0 ==> highest_axis(p) < p.len(),
        forall|i: int| highest_axis(p) < i < p.len() ==> #[trigger] p[i] == 0,
        highest_axis(p) > 0 ==> p[highest_axis(p) as int] != 0,
    decreases p.len(),
{
    if p.len() > 0 && p.last() == 0 {
        let init = p.drop_last();
        lemma_highest_axis(init);
        assert forall|i: int| highest_axis(p) < i < p.len() implies #[trigger] p[i] == 0 by {
            if i < init.len() {
                assert(init[i] == p[i]);
            }
        }
        if highest_axis(p) > 0 {
            assert(init[highest_axis(init) as int] == p[highest_axis(p) as int]);
        }
    }
}

/// The support of a valid position is itself a valid position.
pub proof fn lemma_support_of_valid(dimension: nat, p: Seq<u8>)
    requires
        valid_position(dimension, p),
        needs_support(p),
    ensures
        valid_position(dimension, support_of(p)),
{
    lemma_highest_axis(p);
    let h = highest_axis(p) as int;
    let s = support_of(p);
    assert(p[h] < 3);
    assert forall|i: int| 0 <= i < s.len() implies #[trigger] s[i] < 3 by {
        if i != h {
            assert(s[i] == p[i]);
            assert(p[i] < 3);
        }
    }
}

/// A move on the ground plane, where every coordinate beyond the first two
/// axes is zero, is never refused for want of support.
pub proof fn lemma_ground_needs_no_support(dimension: nat, cells: Seq<u8>, player: u8, p: Seq<u8>)
    requires
        forall|i: int| 2 <= i < p.len() ==> #[trigger] p[i] == 0,
    ensures
        place_outcome(dimension, cells, player, p) != Err::<bool, Error>(
            Error::PlaceError(PlaceError::Unsupported),
        ),
{
    lemma_highest_axis(p);
    if highest_axis(p) > 1 {
        assert(p[highest_axis(p) as int] == 0);
    }
}

/// A move above the ground plane whose supporting cell is empty is refused as
/// unsupported, and the board stays as it was.
pub proof fn lemma_empty_support_refuses(dimension: nat, cells: Seq<u8>, player: u8, p: Seq<u8>)
    requires
        highest_axis(p) >= 2,
        valid_position(dimension, support_of(p)),
        cells[offset_of(support_of(p))] == 0,
    ensures
        place_outcome(dimension, cells, player, p) == Err::<bool, Error>(
            Error::PlaceError(PlaceError::Unsupported),
        ),
        cells_after_place(dimension, cells, player, p) == cells,
{
}

/// A move onto an occupied cell that rests on the ground or on an occupied
/// supporting cell is refused as occupied, and the board stays as it was.
pub proof fn lemma_occupied_refuses(dimension: nat, cells: Seq<u8>, player: u8, p: Seq<u8>)
    requires
        valid_position(dimension, p),
        cells[offset_of(p)] != 0,
        needs_support(p) ==> cells[offset_of(support_of(p))] != 0,
    ensures
        place_outcome(dimension, cells, player, p) == Err::<bool, Error>(
            Error::PlaceError(PlaceError::Occupied),
        ),
        cells_after_place(dimension, cells, player, p) == cells,
{
    if needs_support(p) {
        lemma_support_of_valid(dimension, p);
    }
}

/// The third piece of a line wins: an accepted move onto a cell whose two
/// companions along some nonzero direction already hold the same player
/// reports a win.
pub proof fn lemma_third_in_line_wins(
    dimension: nat,
    cells: Seq<u8>,
    player: u8,
    p: Seq<u8>,
    d: Seq<i8>,
)
    requires
        cells.len() == pow(3, dimension),
        player != 0,
        place_outcome(dimension, cells, player, p) is Ok,
        valid_direction(dimension, d),
        !is_zero(d),
        cells[offset_of(step(p, d))] == player,
        cells[offset_of(step(step(p, d), d))] == player,
    ensures
        place_outcome(dimension, cells, player, p) == Ok::<bool, Error>(true),
{
    let after = cells.update(offset_of(p), player);
    assert(in_bounds(p));
    lemma_line_cells_distinct(p, d);
    lemma_offset_of_range(p);
    lemma_offset_of_range(step(p, d));
    lemma_offset_of_range(step(step(p, d), d));
    assert(line_owned(after, p, d));
}

/// The second piece of a line does not win: an accepted move after which at
/// most two cells of the board are occupied reports no win.
pub proof fn lemma_second_piece_does_not_win(
    dimension: nat,
    cells: Seq<u8>,
    player: u8,
    p: Seq<u8>,
    other: int,
)
    requires
        cells.len() == pow(3, dimension),
        place_outcome(dimension, cells, player, p) is Ok,
        forall|k: int| 0 <= k < cells.len() && cells[k] != 0 ==> k == other,
    ensures
        place_outcome(dimension, cells, player, p) == Ok::<bool, Error>(false),
{
    let after = cells.update(offset_of(p), player);
    assert(valid_position(dimension, p));
    lemma_offset_of_range(p);
    assert forall|k: int| 0 <= k < after.len() && after[k] != 0 implies k == offset_of(p) || k
        == other by {
        if k != offset_of(p) {
            assert(after[k] == cells[k]);
        }
    }
    lemma_two_pieces_do_not_win(after, p, offset_of(p), other);
}

/// The highest axis on which `pos` has a nonzero coordinate, or `0` when it
/// has none.
pub fn highest_nonzero_axis(pos: &[u8]) -> (axis: usize)
    ensures
        axis == highest_axis(pos@),
{
    let mut i: usize = pos.len();
    assert(pos@.take(i as int) =~= pos@);
    while i > 0
        invariant
            i <= pos@.len(),
            highest_axis(pos@) == highest_axis(pos@.take(i as int)),
        decreases i,
    {
        proof {
            let head = pos@.take(i as int);
            assert(head.last() == pos@[i - 1]);
            assert(head.drop_last() =~= pos@.take(i - 1));
        }
        if pos[i - 1] != 0 {
            return i - 1;
        }
        i -= 1;
    }
    0
}

} // verus!
