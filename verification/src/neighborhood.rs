//! Which cells lie near which.
//!
//! The cells within `distance` of a cell, every axis taken by itself, form a box that is cut
//! off at the borders of the grid. The box is enumerated like the grid: first axis fastest.
use vstd::prelude::*;
use crate::layout::{
    lemma_offset_in_volume, lemma_offset_of_position, lemma_position_len,
    lemma_position_of_offset, lemma_volume_monotone, offset, position, positive, volume, within,
};

verus! {

/// `location` is a cell of the grid, and on no axis more than `distance` away from `center`.
pub open spec fn near(size: Seq<int>, center: Seq<int>, distance: int, location: Seq<int>) -> bool {
    &&& within(size, location)
    &&& forall|i: int|
        0 <= i < size.len() ==> -distance <= #[trigger] location[i] - center[i] <= distance
}

/// The least coordinate of the box on each axis.
pub open spec fn box_low(center: Seq<int>, distance: int) -> Seq<int> {
    Seq::new(
        center.len(),
        |i: int|
            if center[i] >= distance {
                center[i] - distance
            } else {
                0
            },
    )
}

/// The greatest coordinate of the box on each axis.
pub open spec fn box_high(size: Seq<int>, center: Seq<int>, distance: int) -> Seq<int> {
    Seq::new(
        center.len(),
        |i: int|
            if center[i] + distance >= size[i] {
                size[i] - 1
            } else {
                center[i] + distance
            },
    )
}

/// How many cells the box spans on each axis.
pub open spec fn box_extent(size: Seq<int>, center: Seq<int>, distance: int) -> Seq<int> {
    Seq::new(
        center.len(),
        |i: int| box_high(size, center, distance)[i] - box_low(center, distance)[i] + 1,
    )
}

/// How many cells are near `center`, itself included.
pub open spec fn neighbor_count(size: Seq<int>, center: Seq<int>, distance: int) -> int {
    volume(box_extent(size, center, distance))
}

/// The `k`-th cell near `center`.
pub open spec fn neighbor_at(size: Seq<int>, center: Seq<int>, distance: int, k: int) -> Seq<int> {
    Seq::new(
        center.len(),
        |i: int| box_low(center, distance)[i] + position(box_extent(size, center, distance), k)[i],
    )
}

/// The cells near `center`, in the order in which they are listed.
pub open spec fn neighbor_locations(size: Seq<int>, center: Seq<int>, distance: int) -> Seq<
    Seq<int>,
> {
    Seq::new(
        neighbor_count(size, center, distance) as nat,
        |k: int| neighbor_at(size, center, distance, k),
    )
}

/// On how many axes `a` and `b` differ.
pub open spec fn differing(a: Seq<int>, b: Seq<int>) -> nat
    decreases a.len(),
{
    if a.len() == 0 || b.len() == 0 {
        0
    } else {
        differing(a.drop_last(), b.drop_last()) + if a.last() != b.last() {
            1nat
        } else {
            0nat
        }
    }
}

/// The cells that share a face with `center`: those of the cells at distance 1 that differ
/// from it on exactly one axis, in the order in which the cells at distance 1 are listed.
pub open spec fn face_locations(size: Seq<int>, center: Seq<int>) -> Seq<Seq<int>> {
    neighbor_locations(size, center, 1).filter(|location: Seq<int>| differing(center, location) == 1)
}

/// The box is not empty and fits in the grid.
pub proof fn lemma_box_fits(size: Seq<int>, center: Seq<int>, distance: int)
    requires
        within(size, center),
        distance >= 0,
    ensures
        positive(box_extent(size, center, distance)),
        1 <= neighbor_count(size, center, distance) <= volume(size),
{
    let extent = box_extent(size, center, distance);
    assert forall|i: int| 0 <= i < extent.len() implies 0 < #[trigger] extent[i] <= size[i] by {
        assert(0 <= center[i] < size[i]);
    }
    lemma_volume_monotone(extent, size);
}

/// Every listed cell is near the center.
pub proof fn lemma_neighbor_is_near(size: Seq<int>, center: Seq<int>, distance: int, k: int)
    requires
        within(size, center),
        distance >= 0,
        0 <= k < neighbor_count(size, center, distance),
    ensures
        near(size, center, distance, neighbor_at(size, center, distance, k)),
{
    let extent = box_extent(size, center, distance);
    let place = neighbor_at(size, center, distance, k);
    lemma_box_fits(size, center, distance);
    lemma_offset_of_position(extent, k);
    let p = position(extent, k);
    assert forall|i: int| 0 <= i < size.len() implies 0 <= #[trigger] place[i] < size[i] && -distance
        <= place[i] - center[i] <= distance by {
        assert(0 <= p[i] < extent[i]);
        assert(0 <= center[i] < size[i]);
    }
}

/// Every cell near the center is listed, at the index that this lemma names.
pub proof fn lemma_near_is_neighbor(
    size: Seq<int>,
    center: Seq<int>,
    distance: int,
    location: Seq<int>,
) -> (k: int)
    requires
        within(size, center),
        distance >= 0,
        near(size, center, distance, location),
    ensures
        0 <= k < neighbor_count(size, center, distance),
        neighbor_at(size, center, distance, k) == location,
{
    let extent = box_extent(size, center, distance);
    let low = box_low(center, distance);
    let shifted = Seq::new(center.len(), |i: int| location[i] - low[i]);
    assert forall|i: int| 0 <= i < extent.len() implies 0 <= #[trigger] shifted[i] < extent[i] by {
        assert(0 <= center[i] < size[i]);
        assert(0 <= location[i] < size[i]);
        assert(-distance <= location[i] - center[i] <= distance);
    }
    lemma_offset_in_volume(extent, shifted);
    lemma_position_of_offset(extent, shifted);
    let k = offset(extent, shifted);
    assert(neighbor_at(size, center, distance, k) =~= location);
    k
}

/// No cell is listed twice.
pub proof fn lemma_neighbors_differ(
    size: Seq<int>,
    center: Seq<int>,
    distance: int,
    j: int,
    k: int,
)
    requires
        within(size, center),
        distance >= 0,
        0 <= j < neighbor_count(size, center, distance),
        0 <= k < neighbor_count(size, center, distance),
        neighbor_at(size, center, distance, j) == neighbor_at(size, center, distance, k),
    ensures
        j == k,
{
    let extent = box_extent(size, center, distance);
    lemma_box_fits(size, center, distance);
    lemma_offset_of_position(extent, j);
    lemma_offset_of_position(extent, k);
    lemma_position_len(extent, j);
    lemma_position_len(extent, k);
    let pj = position(extent, j);
    let pk = position(extent, k);
    let low = box_low(center, distance);
    let nj = neighbor_at(size, center, distance, j);
    let nk = neighbor_at(size, center, distance, k);
    assert forall|i: int| 0 <= i < extent.len() implies pj[i] == pk[i] by {
        assert(nj[i] == low[i] + pj[i]);
        assert(nk[i] == low[i] + pk[i]);
    }
    assert(pj =~= pk);
}

/// Every cell is near itself.
pub proof fn lemma_near_self(size: Seq<int>, center: Seq<int>, distance: int)
    requires
        within(size, center),
        distance >= 0,
    ensures
        near(size, center, distance, center),
{
}

/// Being near is mutual: within any distance, `b` is among the cells near `a` exactly when
/// `a` is among the cells near `b`.
pub proof fn lemma_neighbors_symmetric(size: Seq<int>, a: Seq<int>, b: Seq<int>, distance: int)
    requires
        within(size, a),
        within(size, b),
        distance >= 0,
    ensures
        near(size, a, distance, b) <==> near(size, b, distance, a),
        neighbor_locations(size, a, distance).contains(b) <==> neighbor_locations(
            size,
            b,
            distance,
        ).contains(a),
{
    assert(near(size, a, distance, b) <==> near(size, b, distance, a)) by {
        if near(size, a, distance, b) {
            assert forall|i: int| 0 <= i < size.len() implies -distance <= #[trigger] a[i] - b[i]
                <= distance by {
                assert(-distance <= b[i] - a[i] <= distance);
            }
        }
        if near(size, b, distance, a) {
            assert forall|i: int| 0 <= i < size.len() implies -distance <= #[trigger] b[i] - a[i]
                <= distance by {
                assert(-distance <= a[i] - b[i] <= distance);
            }
        }
    }
    lemma_listed_iff_near(size, a, distance, b);
    lemma_listed_iff_near(size, b, distance, a);
}

/// The listed cells are exactly the cells near the center.
pub proof fn lemma_listed_iff_near(
    size: Seq<int>,
    center: Seq<int>,
    distance: int,
    location: Seq<int>,
)
    requires
        within(size, center),
        distance >= 0,
    ensures
        neighbor_locations(size, center, distance).contains(location) <==> near(
            size,
            center,
            distance,
            location,
        ),
{
    let listed = neighbor_locations(size, center, distance);
    lemma_box_fits(size, center, distance);
    if listed.contains(location) {
        let k = choose|k: int| 0 <= k < listed.len() && listed[k] == location;
        lemma_neighbor_is_near(size, center, distance, k);
    }
    if near(size, center, distance, location) {
        let k = lemma_near_is_neighbor(size, center, distance, location);
        assert(listed[k] == location);
    }
}

/// The cells that share a face with `center` are exactly the cells of the grid that differ
/// from it on one axis, and there by one.
pub proof fn lemma_face_iff_touching(size: Seq<int>, center: Seq<int>, location: Seq<int>)
    requires
        within(size, center),
    ensures
        face_locations(size, center).contains(location) <==> near(size, center, 1, location)
            && differing(center, location) == 1,
{
    let all = neighbor_locations(size, center, 1);
    let touches = |other: Seq<int>| differing(center, other) == 1;
    let faces = all.filter(touches);
    lemma_listed_iff_near(size, center, 1, location);
    if faces.contains(location) {
        let k = choose|k: int| 0 <= k < faces.len() && faces[k] == location;
        all.lemma_filter_pred(touches, k);
        all.lemma_filter_contains_rev(touches, location);
    }
    if near(size, center, 1, location) && differing(center, location) == 1 {
        let k = choose|k: int| 0 <= k < all.len() && all[k] == location;
        all.lemma_filter_contains(touches, k);
    }
}

} // verus!
