//! Addressing of an N-dimensional grid stored as one flat sequence.
//!
//! A location is a sequence of coordinates, one per axis. Cells are laid out with the first
//! axis varying fastest, so the cell at `(x, y, z)` of a grid of size `(sx, sy, sz)` sits at
//! `x + sx * (y + sy * z)`. `offset` is that formula, `position` is its inverse, and the lemmas
//! below show that the two form a bijection between the locations inside the grid and the
//! indices below its `volume`.
use vstd::prelude::*;
use vstd::arithmetic::div_mod::{
    lemma_div_pos_is_pos, lemma_fundamental_div_mod, lemma_fundamental_div_mod_converse,
    lemma_mod_bound,
};

verus! {

/// The number of cells of a grid with the given extents: their product.
pub open spec fn volume(size: Seq<int>) -> int
    decreases size.len(),
{
    if size.len() == 0 {
        1
    } else {
        size[0] * volume(size.drop_first())
    }
}

/// Every axis has at least one cell.
pub open spec fn positive(size: Seq<int>) -> bool {
    forall|i: int| 0 <= i < size.len() ==> #[trigger] size[i] > 0
}

/// `loc` names a cell of a grid with extents `size`.
pub open spec fn within(size: Seq<int>, loc: Seq<int>) -> bool {
    &&& loc.len() == size.len()
    &&& forall|i: int| 0 <= i < size.len() ==> 0 <= #[trigger] loc[i] < size[i]
}

/// The flat index of `loc`, first axis fastest.
pub open spec fn offset(size: Seq<int>, loc: Seq<int>) -> int
    decreases size.len(),
{
    if size.len() == 0 || loc.len() == 0 {
        0
    } else {
        loc[0] + size[0] * offset(size.drop_first(), loc.drop_first())
    }
}

/// The location whose flat index is `k`.
pub open spec fn position(size: Seq<int>, k: int) -> Seq<int>
    decreases size.len(),
{
    if size.len() == 0 {
        Seq::empty()
    } else {
        seq![k % size[0]] + position(size.drop_first(), k / size[0])
    }
}

/// The coordinates of an executable location, as mathematical integers.
pub open spec fn coords(loc: Seq<usize>) -> Seq<int> {
    loc.map_values(|x: usize| x as int)
}

pub proof fn lemma_volume_positive(size: Seq<int>)
    requires
        positive(size),
    ensures
        volume(size) >= 1,
    decreases size.len(),
{
    if size.len() > 0 {
        let rest = size.drop_first();
        assert forall|i: int| 0 <= i < rest.len() implies #[trigger] rest[i] > 0 by {
            assert(rest[i] == size[i + 1]);
        }
        lemma_volume_positive(rest);
        assert(size[0] >= 1);
        assert(size[0] * volume(rest) >= 1) by (nonlinear_arith)
            requires
                size[0] >= 1,
                volume(rest) >= 1,
        ;
    }
}

/// Shrinking extents shrinks the volume.
pub proof fn lemma_volume_monotone(small: Seq<int>, large: Seq<int>)
    requires
        small.len() == large.len(),
        forall|i: int| 0 <= i < small.len() ==> 0 < #[trigger] small[i] <= large[i],
    ensures
        1 <= volume(small) <= volume(large),
    decreases small.len(),
{
    if small.len() > 0 {
        let s = small.drop_first();
        let l = large.drop_first();
        assert forall|i: int| 0 <= i < s.len() implies 0 < #[trigger] s[i] <= l[i] by {
            assert(s[i] == small[i + 1]);
            assert(l[i] == large[i + 1]);
        }
        lemma_volume_monotone(s, l);
        assert(0 < small[0] <= large[0]);
        assert(1 <= small[0] * volume(s) <= large[0] * volume(l)) by (nonlinear_arith)
            requires
                0 < small[0] <= large[0],
                1 <= volume(s) <= volume(l),
        ;
    }
}

/// The trailing axes of a grid hold no more cells than the whole grid.
pub proof fn lemma_volume_suffix(size: Seq<int>, from: int)
    requires
        positive(size),
        0 <= from <= size.len(),
    ensures
        1 <= volume(size.skip(from)) <= volume(size),
    decreases from,
{
    if from == 0 {
        assert(size.skip(0) =~= size);
        lemma_volume_positive(size);
    } else {
        let rest = size.drop_first();
        assert forall|i: int| 0 <= i < rest.len() implies #[trigger] rest[i] > 0 by {
            assert(rest[i] == size[i + 1]);
        }
        lemma_volume_suffix(rest, from - 1);
        assert(rest.skip(from - 1) =~= size.skip(from));
        assert(size[0] >= 1);
        assert(volume(rest) <= size[0] * volume(rest)) by (nonlinear_arith)
            requires
                size[0] >= 1,
                volume(rest) >= 1,
        ;
    }
}

/// A location inside the grid has a flat index below the grid's volume.
pub proof fn lemma_offset_in_volume(size: Seq<int>, loc: Seq<int>)
    requires
        within(size, loc),
    ensures
        0 <= offset(size, loc) < volume(size),
    decreases size.len(),
{
    if size.len() > 0 {
        let s = size.drop_first();
        let l = loc.drop_first();
        assert forall|i: int| 0 <= i < s.len() implies 0 <= #[trigger] l[i] < s[i] by {
            assert(l[i] == loc[i + 1]);
            assert(s[i] == size[i + 1]);
        }
        lemma_offset_in_volume(s, l);
        assert(0 <= loc[0] < size[0]);
        assert(0 <= loc[0] + size[0] * offset(s, l) < size[0] * volume(s)) by (nonlinear_arith)
            requires
                0 <= loc[0] < size[0],
                0 <= offset(s, l) < volume(s),
        ;
    }
}

/// `position` undoes `offset`.
pub proof fn lemma_position_of_offset(size: Seq<int>, loc: Seq<int>)
    requires
        within(size, loc),
    ensures
        position(size, offset(size, loc)) == loc,
    decreases size.len(),
{
    if size.len() == 0 {
        assert(loc =~= Seq::<int>::empty());
    } else {
        let s = size.drop_first();
        let l = loc.drop_first();
        assert forall|i: int| 0 <= i < s.len() implies 0 <= #[trigger] l[i] < s[i] by {
            assert(l[i] == loc[i + 1]);
            assert(s[i] == size[i + 1]);
        }
        lemma_position_of_offset(s, l);
        let k = offset(size, loc);
        assert(0 <= loc[0] < size[0]);
        assert(k == offset(s, l) * size[0] + loc[0]) by (nonlinear_arith)
            requires
                k == loc[0] + size[0] * offset(s, l),
        ;
        lemma_fundamental_div_mod_converse(k, size[0], offset(s, l), loc[0]);
        assert(position(size, k) =~= loc);
    }
}

/// `offset` undoes `position`, and `position` stays inside the grid.
pub proof fn lemma_offset_of_position(size: Seq<int>, k: int)
    requires
        positive(size),
        0 <= k < volume(size),
    ensures
        within(size, position(size, k)),
        offset(size, position(size, k)) == k,
    decreases size.len(),
{
    if size.len() > 0 {
        let s = size.drop_first();
        assert forall|i: int| 0 <= i < s.len() implies #[trigger] s[i] > 0 by {
            assert(s[i] == size[i + 1]);
        }
        let d = size[0];
        assert(d > 0);
        let q = k / d;
        let r = k % d;
        lemma_fundamental_div_mod(k, d);
        lemma_mod_bound(k, d);
        lemma_div_pos_is_pos(k, d);
        assert(q < volume(s)) by (nonlinear_arith)
            requires
                k == d * q + r,
                0 <= r,
                d > 0,
                k < d * volume(s),
        ;
        lemma_offset_of_position(s, q);
        let p = position(size, k);
        let rest = position(s, q);
        assert(p.len() == size.len());
        assert(p.drop_first() =~= rest);
        assert forall|i: int| 0 <= i < size.len() implies 0 <= #[trigger] p[i] < size[i] by {
            if i > 0 {
                assert(p[i] == rest[i - 1]);
                assert(size[i] == s[i - 1]);
            }
        }
    }
}

/// Two locations inside the grid with the same flat index are the same location.
pub proof fn lemma_offset_injective(size: Seq<int>, a: Seq<int>, b: Seq<int>)
    requires
        within(size, a),
        within(size, b),
        offset(size, a) == offset(size, b),
    ensures
        a == b,
{
    lemma_position_of_offset(size, a);
    lemma_position_of_offset(size, b);
}

/// `position` yields one coordinate per axis.
pub proof fn lemma_position_len(size: Seq<int>, k: int)
    ensures
        position(size, k).len() == size.len(),
    decreases size.len(),
{
    if size.len() > 0 {
        lemma_position_len(size.drop_first(), k / size[0]);
    }
}

} // verus!
