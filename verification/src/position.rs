//! Positions on the hypercube and their flat storage offsets.
//!
//! A position is a sequence of coordinates, one per axis, each in `0..3`.
//! Axis `i` has place value `3^i`, so a position is the little-endian base-3
//! notation of its offset. The lemmas in this module show that this numbering
//! is a bijection between the valid positions of a `dimension`-dimensional
//! board and the offsets `0..3^dimension`.

use vstd::prelude::*;
use vstd::arithmetic::power::{pow, lemma_pow_increases, lemma_pow_positive};
use crate::error::IndexError;

verus! {

/// Every coordinate of `p` lies in `0..3`.
pub open spec fn in_bounds(p: Seq<u8>) -> bool {
    forall|i: int| 0 <= i < p.len() ==> #[trigger] p[i] < 3
}

/// `p` names a cell of a board with `dimension` axes.
pub open spec fn valid_position(dimension: nat, p: Seq<u8>) -> bool {
    p.len() == dimension && in_bounds(p)
}

/// The flat offset of `p`: the sum of `p[i] * 3^i` over all axes `i`.
pub open spec fn offset_of(p: Seq<u8>) -> int
    decreases p.len(),
{
    if p.len() == 0 {
        0
    } else {
        offset_of(p.drop_last()) + p.last() * pow(3, (p.len() - 1) as nat)
    }
}

/// What indexing a board with `dimension` axes by `p` yields: the offset of
/// `p`, or the reason why `p` names no cell. A wrong number of coordinates is
/// reported before a coordinate out of range.
pub open spec fn index_of(dimension: nat, p: Seq<u8>) -> Result<int, IndexError> {
    if p.len() != dimension {
        Err(IndexError::OutOfDimension)
    } else if !in_bounds(p) {
        Err(IndexError::OutOfBounds)
    } else {
        Ok(offset_of(p))
    }
}

/// What reading the cell at `p` yields on a board with `dimension` axes and
/// the given cells.
pub open spec fn read_outcome(dimension: nat, cells: Seq<u8>, p: Seq<u8>) -> Result<u8, IndexError> {
    match index_of(dimension, p) {
        Ok(k) => Ok(cells[k]),
        Err(e) => Err(e),
    }
}

/// The position whose offset is `k`: the `dimension` lowest base-3 digits of
/// `k`, least significant first.
pub open spec fn position_of(dimension: nat, k: int) -> Seq<u8>
    decreases dimension,
{
    if dimension == 0 {
        Seq::empty()
    } else {
        seq![(k % 3) as u8] + position_of((dimension - 1) as nat, k / 3)
    }
}

/// `3^n` is positive, and `3^(n+1)` is three times `3^n`.
pub proof fn lemma_pow3(n: nat)
    ensures
        pow(3, 0) == 1,
        pow(3, n) >= 1,
        pow(3, n + 1) == 3 * pow(3, n),
{
    reveal(pow);
    lemma_pow_positive(3, n);
}

/// The offset of a nonempty position is its first coordinate plus three times
/// the offset of the remaining coordinates.
pub proof fn lemma_offset_of_front(p: Seq<u8>)
    requires
        p.len() > 0,
    ensures
        offset_of(p) == p[0] + 3 * offset_of(p.drop_first()),
    decreases p.len(),
{
    reveal(pow);
    if p.len() == 1 {
        assert(p.drop_last().len() == 0);
        assert(p.drop_first().len() == 0);
        assert(offset_of(p.drop_last()) == 0);
        assert(pow(3, 0) == 1);
    } else {
        let init = p.drop_last();
        let tail = p.drop_first();
        let n = (p.len() - 2) as nat;
        lemma_offset_of_front(init);
        assert(init.drop_first() =~= tail.drop_last());
        assert(tail.last() == p.last());
        assert(init[0] == p[0]);
        lemma_pow3(n);
        let t = pow(3, n);
        let x = p.last() as int;
        assert(x * (3 * t) == 3 * (x * t)) by (nonlinear_arith);
        assert(offset_of(tail) == offset_of(tail.drop_last()) + x * t);
        assert(offset_of(p) == offset_of(init) + x * (3 * t));
    }
}

/// The offset of a valid position lies in `0..3^dimension`.
pub proof fn lemma_offset_of_range(p: Seq<u8>)
    requires
        in_bounds(p),
    ensures
        0 <= offset_of(p) < pow(3, p.len()),
    decreases p.len(),
{
    if p.len() == 0 {
        lemma_pow3(0);
    } else {
        let tail = p.drop_first();
        assert forall|i: int| 0 <= i < tail.len() implies #[trigger] tail[i] < 3 by {
            assert(tail[i] == p[i + 1]);
        }
        lemma_offset_of_range(tail);
        lemma_offset_of_front(p);
        lemma_pow3(tail.len());
        assert(p[0] < 3);
    }
}

/// Distinct valid positions of one board have distinct offsets.
pub proof fn lemma_offset_of_injective(p: Seq<u8>, q: Seq<u8>)
    requires
        p.len() == q.len(),
        in_bounds(p),
        in_bounds(q),
        offset_of(p) == offset_of(q),
    ensures
        p == q,
    decreases p.len(),
{
    if p.len() == 0 {
        assert(p =~= q);
    } else {
        let ptail = p.drop_first();
        let qtail = q.drop_first();
        assert forall|i: int| 0 <= i < ptail.len() implies #[trigger] ptail[i] < 3 by {
            assert(ptail[i] == p[i + 1]);
        }
        assert forall|i: int| 0 <= i < qtail.len() implies #[trigger] qtail[i] < 3 by {
            assert(qtail[i] == q[i + 1]);
        }
        lemma_offset_of_front(p);
        lemma_offset_of_front(q);
        assert(p[0] < 3 && q[0] < 3);
        assert(p[0] == q[0] && offset_of(ptail) == offset_of(qtail));
        lemma_offset_of_injective(ptail, qtail);
        assert forall|i: int| 0 <= i < p.len() implies p[i] == q[i] by {
            if i > 0 {
                assert(p[i] == ptail[i - 1]);
                assert(q[i] == qtail[i - 1]);
            }
        }
        assert(p =~= q);
    }
}

/// `position_of` yields a valid position of the requested dimension.
pub proof fn lemma_position_of_valid(dimension: nat, k: int)
    ensures
        valid_position(dimension, position_of(dimension, k)),
    decreases dimension,
{
    if dimension > 0 {
        lemma_position_of_valid((dimension - 1) as nat, k / 3);
        let rest = position_of((dimension - 1) as nat, k / 3);
        let p = position_of(dimension, k);
        assert forall|i: int| 0 <= i < p.len() implies #[trigger] p[i] < 3 by {
            if i > 0 {
                assert(p[i] == rest[i - 1]);
            }
        }
    }
}

/// Every offset in `0..3^dimension` is the offset of the position that
/// `position_of` gives for it.
pub proof fn lemma_offset_of_position_of(dimension: nat, k: int)
    requires
        0 <= k < pow(3, dimension),
    ensures
        offset_of(position_of(dimension, k)) == k,
    decreases dimension,
{
    if dimension == 0 {
        lemma_pow3(0);
    } else {
        let n = (dimension - 1) as nat;
        lemma_pow3(n);
        lemma_offset_of_position_of(n, k / 3);
        let p = position_of(dimension, k);
        assert(p.drop_first() =~= position_of(n, k / 3));
        assert(p[0] == k % 3);
        lemma_offset_of_front(p);
    }
}

/// `position_of` undoes `offset_of` on valid positions.
pub proof fn lemma_position_of_offset_of(p: Seq<u8>)
    requires
        in_bounds(p),
    ensures
        position_of(p.len(), offset_of(p)) == p,
{
    let q = position_of(p.len(), offset_of(p));
    lemma_offset_of_range(p);
    lemma_position_of_valid(p.len(), offset_of(p));
    lemma_offset_of_position_of(p.len(), offset_of(p));
    lemma_offset_of_injective(q, p);
}

/// A value written to the cell at `p` is the value read back from `p`, and a
/// read of any other cell is not affected by the write.
pub proof fn lemma_read_after_write(dimension: nat, cells: Seq<u8>, p: Seq<u8>, q: Seq<u8>, v: u8)
    requires
        cells.len() == pow(3, dimension),
        valid_position(dimension, p),
    ensures
        read_outcome(dimension, cells.update(offset_of(p), v), p) == Ok::<u8, IndexError>(v),
        q != p ==> read_outcome(dimension, cells.update(offset_of(p), v), q) == read_outcome(
            dimension,
            cells,
            q,
        ),
{
    lemma_offset_of_range(p);
    if q != p && valid_position(dimension, q) {
        lemma_offset_of_range(q);
        if offset_of(p) == offset_of(q) {
            lemma_offset_of_injective(p, q);
        }
    }
}

/// Boards of up to twenty axes fit every machine: `3^20` is below `2^32`.
pub proof fn lemma_small_dimension_fits(dimension: nat)
    requires
        dimension <= 20,
    ensures
        pow(3, dimension) <= usize::MAX,
{
    lemma_pow_increases(3, dimension, 20);
    assert(pow(3, 20) == 3486784401) by {
        reveal_with_fuel(pow, 21);
    }
}

} // verus!
