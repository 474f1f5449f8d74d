//! Direction vectors: how a line runs through the hypercube.
//!
//! A direction has one component per axis, each `-1`, `0` or `1`. Adding one
//! to every component turns a direction into a position, so the directions of
//! a `dimension`-dimensional board are numbered `0..3^dimension` just as its
//! cells are. In that numbering the zero direction sits exactly in the middle,
//! and a direction and its opposite mirror each other around it. The codes
//! below the middle therefore hold one direction of every opposite pair.

use vstd::prelude::*;
use vstd::arithmetic::power::pow;
use crate::position::{
    offset_of, position_of, lemma_offset_of_front, lemma_offset_of_injective,
    lemma_offset_of_position_of, lemma_offset_of_range, lemma_position_of_offset_of,
    lemma_position_of_valid, lemma_pow3,
};

verus! {

/// `d` has one component per axis, each of them `-1`, `0` or `1`.
pub open spec fn valid_direction(dimension: nat, d: Seq<i8>) -> bool {
    d.len() == dimension && forall|i: int| 0 <= i < d.len() ==> -1 <= #[trigger] d[i] <= 1
}

/// `d` points nowhere: all its components are zero.
pub open spec fn is_zero(d: Seq<i8>) -> bool {
    forall|i: int| 0 <= i < d.len() ==> #[trigger] d[i] == 0
}

/// The direction that runs against `d`.
pub open spec fn opposite(d: Seq<i8>) -> Seq<i8> {
    Seq::new(d.len(), |i: int| (-d[i]) as i8)
}

/// The position one step from `p` along `d`, each coordinate wrapped into
/// `0..3` by the Euclidean remainder.
pub open spec fn step(p: Seq<u8>, d: Seq<i8>) -> Seq<u8> {
    Seq::new(p.len(), |i: int| ((p[i] + d[i]) % 3) as u8)
}

/// The position that stands for `d`: every component raised by one.
pub open spec fn raised(d: Seq<i8>) -> Seq<u8> {
    Seq::new(d.len(), |i: int| (d[i] + 1) as u8)
}

/// The number of the direction `d`.
pub open spec fn code_of(d: Seq<i8>) -> int {
    offset_of(raised(d))
}

/// The direction with number `code`.
pub open spec fn direction_of(dimension: nat, code: int) -> Seq<i8> {
    Seq::new(dimension, |i: int| (position_of(dimension, code)[i] - 1) as i8)
}

/// The number of the zero direction, and the count of opposite pairs among
/// the nonzero directions: `(3^dimension - 1) / 2`.
pub open spec fn half(dimension: nat) -> int {
    (pow(3, dimension) - 1) / 2
}

/// Two steps along `d` are one step against it, and the other way round.
pub proof fn lemma_step_opposite(p: Seq<u8>, d: Seq<i8>)
    requires
        valid_direction(p.len(), d),
    ensures
        step(p, opposite(d)) == step(step(p, d), d),
        step(step(p, opposite(d)), opposite(d)) == step(p, d),
{
    let back = opposite(d);
    assert forall|i: int| 0 <= i < p.len() implies step(p, back)[i] == step(step(p, d), d)[i] by {
        assert(-1 <= d[i] <= 1);
    }
    assert(step(p, back) =~= step(step(p, d), d));
    assert forall|i: int| 0 <= i < p.len() implies step(step(p, back), back)[i] == step(p, d)[i] by {
        assert(-1 <= d[i] <= 1);
    }
    assert(step(step(p, back), back) =~= step(p, d));
}

/// Every number names a valid direction.
pub proof fn lemma_direction_of_valid(dimension: nat, code: int)
    ensures
        valid_direction(dimension, direction_of(dimension, code)),
{
    lemma_position_of_valid(dimension, code);
    let p = position_of(dimension, code);
    let d = direction_of(dimension, code);
    assert forall|i: int| 0 <= i < d.len() implies -1 <= #[trigger] d[i] <= 1 by {
        assert(p[i] < 3);
    }
}

/// A valid direction has a number in `0..3^dimension`, and that number names
/// it.
pub proof fn lemma_direction_of_code_of(d: Seq<i8>)
    requires
        valid_direction(d.len(), d),
    ensures
        0 <= code_of(d) < pow(3, d.len()),
        direction_of(d.len(), code_of(d)) == d,
{
    let p = raised(d);
    assert forall|i: int| 0 <= i < p.len() implies #[trigger] p[i] < 3 by {
        assert(-1 <= d[i] <= 1);
    }
    lemma_offset_of_range(p);
    lemma_position_of_offset_of(p);
    let back = direction_of(d.len(), code_of(d));
    assert forall|i: int| 0 <= i < d.len() implies back[i] == d[i] by {
        assert(-1 <= d[i] <= 1);
        assert(p[i] == d[i] + 1);
    }
    assert(back =~= d);
}

/// The offsets of a position and of its mirror image, in which every
/// coordinate `c` is replaced by `2 - c`, add up to `3^dimension - 1`.
proof fn lemma_offset_of_mirrored(p: Seq<u8>, q: Seq<u8>)
    requires
        p.len() == q.len(),
        forall|i: int| 0 <= i < p.len() ==> #[trigger] p[i] + q[i] == 2,
    ensures
        offset_of(p) + offset_of(q) == pow(3, p.len()) - 1,
    decreases p.len(),
{
    if p.len() == 0 {
        lemma_pow3(0);
    } else {
        let ptail = p.drop_first();
        let qtail = q.drop_first();
        assert forall|i: int| 0 <= i < ptail.len() implies #[trigger] ptail[i] + qtail[i] == 2 by {
            assert(p[i + 1] + q[i + 1] == 2);
        }
        lemma_offset_of_mirrored(ptail, qtail);
        lemma_offset_of_front(p);
        lemma_offset_of_front(q);
        lemma_pow3(ptail.len());
        assert(p[0] + q[0] == 2);
    }
}

/// The numbers of a direction and of its opposite add up to
/// `3^dimension - 1`.
pub proof fn lemma_code_of_opposite(d: Seq<i8>)
    requires
        valid_direction(d.len(), d),
    ensures
        valid_direction(d.len(), opposite(d)),
        code_of(d) + code_of(opposite(d)) == pow(3, d.len()) - 1,
{
    let back = opposite(d);
    assert forall|i: int| 0 <= i < back.len() implies -1 <= #[trigger] back[i] <= 1 by {
        assert(-1 <= d[i] <= 1);
    }
    let p = raised(d);
    let q = raised(back);
    assert forall|i: int| 0 <= i < p.len() implies #[trigger] p[i] + q[i] == 2 by {
        assert(-1 <= d[i] <= 1);
    }
    lemma_offset_of_mirrored(p, q);
}

/// Among the valid directions, the zero direction is the one numbered
/// `half(dimension)`, which is exactly half of `3^dimension - 1`.
pub proof fn lemma_code_of_zero(d: Seq<i8>)
    requires
        valid_direction(d.len(), d),
    ensures
        is_zero(d) <==> code_of(d) == half(d.len()),
        2 * half(d.len()) == pow(3, d.len()) - 1,
{
    let zero = Seq::new(d.len(), |i: int| 0i8);
    assert(opposite(zero) =~= zero);
    lemma_code_of_opposite(zero);
    assert(code_of(zero) == half(d.len()));
    if is_zero(d) {
        assert(d =~= zero);
    }
    if code_of(d) == half(d.len()) {
        let p = raised(d);
        let q = raised(zero);
        assert forall|i: int| 0 <= i < p.len() implies #[trigger] p[i] < 3 by {
            assert(-1 <= d[i] <= 1);
        }
        lemma_offset_of_injective(p, q);
        assert forall|i: int| 0 <= i < d.len() implies #[trigger] d[i] == 0 by {
            assert(-1 <= d[i] <= 1);
            assert(p[i] == q[i]);
        }
    }
}

/// Of a nonzero direction and its opposite, one has a number below
/// `half(dimension)`.
pub proof fn lemma_half_holds_every_pair(d: Seq<i8>)
    requires
        valid_direction(d.len(), d),
        !is_zero(d),
    ensures
        0 <= code_of(d) < half(d.len()) || 0 <= code_of(opposite(d)) < half(d.len()),
{
    lemma_direction_of_code_of(d);
    lemma_code_of_opposite(d);
    lemma_direction_of_code_of(opposite(d));
    lemma_code_of_zero(d);
}

/// The directions numbered below `half(dimension)` are not zero.
pub proof fn lemma_below_half_is_nonzero(dimension: nat, code: int)
    requires
        0 <= code < half(dimension),
    ensures
        !is_zero(direction_of(dimension, code)),
{
    let d = direction_of(dimension, code);
    lemma_direction_of_valid(dimension, code);
    lemma_code_of_zero(d);
    lemma_position_of_valid(dimension, code);
    let p = position_of(dimension, code);
    assert forall|i: int| 0 <= i < p.len() implies raised(d)[i] == p[i] by {
        assert(p[i] < 3);
    }
    assert(raised(d) =~= p);
    lemma_pow3(dimension);
    lemma_offset_of_position_of(dimension, code);
}

/// The direction with number `code`.
pub fn direction_from_code(dimension: u8, code: usize) -> (dir: Vec<i8>)
    ensures
        dir@ == direction_of(dimension as nat, code as int),
{
    let ghost digits = position_of(dimension as nat, code as int);
    let mut dir: Vec<i8> = Vec::new();
    let mut rest: usize = code;
    let mut i: u8 = 0;
    proof {
        lemma_position_of_valid(dimension as nat, code as int);
        assert(digits.skip(0) =~= digits);
    }
    while i < dimension
        invariant
            i <= dimension,
            digits == position_of(dimension as nat, code as int),
            digits.len() == dimension,
            dir@.len() == i,
            forall|j: int| 0 <= j < i ==> #[trigger] dir@[j] == digits[j] - 1,
            digits.skip(i as int) == position_of((dimension - i) as nat, rest as int),
        decreases dimension - i,
    {
        proof {
            let here = digits.skip(i as int);
            assert(here[0] == digits[i as int]);
            assert(here[0] == rest % 3);
            assert(digits.skip(i + 1) =~= here.drop_first());
            assert(here.drop_first() =~= position_of((dimension - i - 1) as nat, rest as int / 3));
        }
        let digit: usize = rest % 3;
        dir.push(digit as i8 - 1);
        rest = rest / 3;
        i += 1;
    }
    assert(dir@ =~= direction_of(dimension as nat, code as int));
    dir
}

/// Moves `pos` one step along `dir`, wrapping at the edges of the board.
pub fn advance(pos: &mut Vec<u8>, dir: &[i8])
    requires
        old(pos)@.len() == dir@.len(),
    ensures
        final(pos)@ == step(old(pos)@, dir@),
{
    let mut i: usize = 0;
    while i < pos.len()
        invariant
            i <= pos@.len(),
            pos@.len() == old(pos)@.len(),
            pos@.len() == dir@.len(),
            forall|j: int| 0 <= j < i ==> #[trigger] pos@[j] == step(old(pos)@, dir@)[j],
            forall|j: int| i <= j < pos@.len() ==> #[trigger] pos@[j] == old(pos)@[j],
        decreases pos.len() - i,
    {
        // 129 is a multiple of three that lifts every sum above zero.
        let lifted: i16 = pos[i] as i16 + dir[i] as i16 + 129;
        pos.set(i, (lifted % 3) as u8);
        i += 1;
    }
    assert(pos@ =~= step(old(pos)@, dir@));
}

} // verus!
