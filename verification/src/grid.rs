//! The grid: its cells, and how they are addressed.
use vstd::prelude::*;
use crate::layout::{
    coords, lemma_offset_in_volume, lemma_offset_of_position, lemma_volume_suffix, offset,
    position, positive, volume, within,
};
use crate::neighborhood::{
    box_extent, box_high, box_low, differing, face_locations, lemma_box_fits,
    lemma_neighbor_is_near, neighbor_at, neighbor_count, neighbor_locations,
};
use crate::pixel::{is_universe, Pixel, PixelView, PossibleValues};
use crate::unique::eq_is_identity;

verus! {

/// Trait representing an error during Grid initialization. The only possible error is currently SizeMustNotBeZero.
#[derive(Debug)]
pub enum SizeErr {
    SizeMustNotBeZero,
}

/// The locations in `list`, as sequences of coordinates.
pub open spec fn places<const D: usize>(list: Seq<[usize; D]>) -> Seq<Seq<int>> {
    list.map_values(|location: [usize; D]| coords(location@))
}

/// The locations in a list of cells, as sequences of coordinates.
pub open spec fn listed_places<T, const D: usize>(list: Seq<([usize; D], Pixel<T>)>) -> Seq<
    Seq<int>,
> {
    list.map_values(|entry: ([usize; D], Pixel<T>)| coords(entry.0@))
}

/// On how many axes `a` and `b` differ.
pub fn axes_apart<const D: usize>(a: &[usize; D], b: &[usize; D]) -> (apart: usize)
    ensures
        apart == differing(coords(a@), coords(b@)),
{
    let ghost x = coords(a@);
    let ghost y = coords(b@);
    let mut apart: usize = 0;
    let mut axis: usize = 0;
    while axis < D
        invariant
            axis <= D,
            x == coords(a@),
            y == coords(b@),
            apart <= axis,
            apart == differing(x.take(axis as int), y.take(axis as int)),
        decreases D - axis,
    {
        proof {
            assert(x.take(axis + 1).drop_last() =~= x.take(axis as int));
            assert(y.take(axis + 1).drop_last() =~= y.take(axis as int));
            assert(x.take(axis + 1).last() == a[axis as int]);
            assert(y.take(axis + 1).last() == b[axis as int]);
        }
        if a[axis] != b[axis] {
            apart += 1;
        }
        axis += 1;
    }
    proof {
        assert(x.take(D as int) =~= x);
        assert(y.take(D as int) =~= y);
    }
    apart
}

/// The location whose flat index is `index` in a box of the given extents.
pub fn unfold<const D: usize>(extent: &[usize; D], index: usize) -> (place: [usize; D])
    requires
        positive(coords(extent@)),
    ensures
        coords(place@) == position(coords(extent@), index as int),
{
    let ghost span = coords(extent@);
    let mut place = [0usize; D];
    let mut rest: usize = index;
    let ghost mut digits: Seq<int> = Seq::empty();
    let mut axis: usize = 0;
    proof {
        assert(span.skip(0) =~= span);
        assert(digits + position(span, index as int) =~= position(span, index as int));
    }
    while axis < D
        invariant
            axis <= D,
            span == coords(extent@),
            positive(span),
            digits.len() == axis,
            position(span, index as int) == digits + position(span.skip(axis as int), rest as int),
            forall|i: int| 0 <= i < axis ==> #[trigger] place[i] == digits[i],
        decreases D - axis,
    {
        let width = extent[axis];
        proof {
            assert(span[axis as int] == width);
            assert(span[axis as int] > 0);
            let tail = span.skip(axis as int);
            assert(tail[0] == width);
            assert(tail.drop_first() =~= span.skip(axis + 1));
            assert(position(tail, rest as int) == seq![(rest as int) % (width as int)] + position(
                span.skip(axis + 1),
                (rest as int) / (width as int),
            ));
            assert(digits + position(tail, rest as int) =~= digits.push(
                (rest as int) % (width as int),
            ) + position(span.skip(axis + 1), (rest as int) / (width as int)));
        }
        let digit = rest % width;
        place[axis] = digit;
        rest = rest / width;
        proof {
            digits = digits.push(digit as int);
        }
        axis += 1;
    }
    proof {
        assert(span.skip(D as int) =~= Seq::<int>::empty());
        assert(position(span, index as int) =~= digits);
        assert(coords(place@) =~= digits);
    }
    place
}

/// Whether some axis has no cell.
fn has_empty_axis<const D: usize>(size: &[usize; D]) -> (empty: bool)
    ensures
        empty == !positive(coords(size@)),
{
    let ghost dims = coords(size@);
    let mut axis: usize = 0;
    while axis < D
        invariant
            axis <= D,
            dims == coords(size@),
            forall|i: int| 0 <= i < axis ==> #[trigger] dims[i] > 0,
        decreases D - axis,
    {
        if size[axis] == 0 {
            proof {
                assert(dims[axis as int] == 0);
            }
            return true;
        }
        axis += 1;
    }
    false
}

/// The number of cells of a grid of this size.
fn count_cells<const D: usize>(size: &[usize; D]) -> (count: usize)
    requires
        positive(coords(size@)),
        volume(coords(size@)) <= usize::MAX,
    ensures
        count == volume(coords(size@)),
{
    let ghost dims = coords(size@);
    let mut count: usize = 1;
    let mut axis: usize = D;
    proof {
        assert(dims.skip(D as int) =~= Seq::<int>::empty());
    }
    while axis > 0
        invariant
            axis <= D,
            dims == coords(size@),
            positive(dims),
            volume(dims) <= usize::MAX,
            count == volume(dims.skip(axis as int)),
        decreases axis,
    {
        axis -= 1;
        proof {
            lemma_volume_suffix(dims, axis as int);
            assert(dims.skip(axis as int).drop_first() =~= dims.skip(axis + 1));
            assert(dims.skip(axis as int)[0] == size[axis as int]);
        }
        count = size[axis] * count;
    }
    proof {
        assert(dims.skip(0) =~= dims);
    }
    count
}

/// There is an array that holds the first `count` items of `items`.
proof fn lemma_array_up_to<const D: usize>(items: Seq<usize>, count: int) -> (array: [usize; D])
    requires
        items.len() == D,
        0 <= count <= D,
    ensures
        forall|i: int| 0 <= i < count ==> array@[i] == items[i],
    decreases count,
{
    if count == 0 {
        vstd::array::spec_array_fill_for_copy_type(0usize)
    } else {
        let shorter = lemma_array_up_to::<D>(items, count - 1);
        vstd::array::spec_array_update(shorter, count - 1, items[count - 1])
    }
}

/// There is an array for every sequence of its length.
pub proof fn lemma_array_of<const D: usize>(items: Seq<usize>) -> (array: [usize; D])
    requires
        items.len() == D,
    ensures
        array@ == items,
{
    let array = lemma_array_up_to::<D>(items, D as int);
    assert(array@ =~= items);
    array
}

/// A microwfc grid.
pub struct Grid<T: PossibleValues, const D: usize> {
    /// The extent along each axis.
    pub size: [usize; D],
    /// The pixels, the first axis varying fastest.
    pub data: Vec<Pixel<T>>,
}

/// A grid as a mathematical value.
pub ghost struct GridView<T> {
    /// The extent along each axis.
    pub size: Seq<int>,
    /// The pixels, the first axis varying fastest.
    pub cells: Seq<PixelView<T>>,
}

impl<T: PossibleValues, const D: usize> View for Grid<T, D> {
    type V = GridView<T>;

    open spec fn view(&self) -> GridView<T> {
        GridView { size: coords(self.size@), cells: self.data@.map_values(|pixel: Pixel<T>| pixel@) }
    }
}

impl<T: PossibleValues, const D: usize> Grid<T, D> {
    /// The extent of the grid along each axis.
    pub open spec fn dims(self) -> Seq<int> {
        coords(self.size@)
    }

    /// Every axis has at least one cell, there is one pixel for each location, and each
    /// pixel is well-formed.
    pub open spec fn wf(self) -> bool {
        &&& positive(self.dims())
        &&& self.data@.len() == volume(self.dims())
        &&& forall|i: int| 0 <= i < self.data@.len() ==> (#[trigger] self.data@[i])@.wf()
    }

    /// `location` names a cell of the grid.
    pub open spec fn has(self, location: [usize; D]) -> bool {
        within(self.dims(), coords(location@))
    }

    /// The pixel at `location`.
    pub open spec fn cell(self, location: Seq<int>) -> PixelView<T> {
        self.data@[offset(self.dims(), location)]@
    }

    /// Every candidate of every pixel has a weight above zero.
    pub open spec fn weighted(self) -> bool {
        forall|i: int| 0 <= i < self.data@.len() ==> (#[trigger] self.data@[i])@.weighted()
    }

    /// Every pixel has a candidate.
    pub open spec fn stocked(self) -> bool {
        forall|location: Seq<int>|
            within(self.dims(), location) ==> (#[trigger] self.cell(location)).possible.len() > 0
    }

    /// Every pixel has taken its value.
    pub open spec fn complete(self) -> bool {
        forall|i: int| 0 <= i < self.data@.len() ==> (#[trigger] self.data@[i])@.determined is Some
    }

    /// Whether a grid of this size has no more cells than can be counted, so that `new` can
    /// be asked for it. A size with an axis of no cells fits.
    pub fn fits(size: [usize; D]) -> (fits: bool)
        ensures
            fits == (positive(coords(size@)) ==> volume(coords(size@)) <= usize::MAX),
    {
        if has_empty_axis(&size) {
            return true;
        }
        let ghost dims = coords(size@);
        let mut count: usize = 1;
        let mut axis: usize = D;
        proof {
            assert(dims.skip(D as int) =~= Seq::<int>::empty());
        }
        while axis > 0
            invariant
                axis <= D,
                dims == coords(size@),
                positive(dims),
                count == volume(dims.skip(axis as int)),
            decreases axis,
        {
            axis -= 1;
            proof {
                lemma_volume_suffix(dims, axis as int);
                assert(dims.skip(axis as int).drop_first() =~= dims.skip(axis + 1));
                assert(dims.skip(axis as int)[0] == size[axis as int]);
            }
            match size[axis].checked_mul(count) {
                Some(more) => {
                    count = more;
                },
                None => {
                    return false;
                },
            }
        }
        proof {
            assert(dims.skip(0) =~= dims);
        }
        true
    }

    /// Whether the grid is well-formed.
    pub fn well_formed(&self) -> (ok: bool)
        ensures
            eq_is_identity::<T>() ==> ok == self.wf(),
    {
        let total = self.data.len();
        if has_empty_axis(&self.size) || !Self::fits(self.size) {
            return false;
        }
        if total != count_cells(&self.size) {
            return false;
        }
        let mut index: usize = 0;
        while index < total
            invariant
                index <= total,
                total == self.data@.len(),
                eq_is_identity::<T>() ==> forall|i: int|
                    0 <= i < index ==> (#[trigger] self.data@[i])@.wf(),
            decreases total - index,
        {
            if !self.data[index].well_formed() {
                return false;
            }
            index += 1;
        }
        true
    }

    /// Constructs a new Grid using the n-dimensional size.
    /// Every pixel of it may still take every value of `T`.
    pub fn new(size: [usize; D]) -> (made: Result<Self, SizeErr>)
        requires
            positive(coords(size@)) ==> volume(coords(size@)) <= usize::MAX,
        ensures
            made is Ok <==> positive(coords(size@)),
            made matches Ok(grid) ==> {
                &&& grid.wf()
                &&& grid.size == size
                &&& exists|universe: Seq<(T, u32)>|
                    {
                        &&& is_universe(universe)
                        &&& forall|i: int|
                            0 <= i < grid.data@.len() ==> (#[trigger] grid.data@[i])@ == (PixelView {
                                possible: universe,
                                determined: None,
                            })
                    }
                &&& forall|location: Seq<int>|
                    within(grid.dims(), location) ==> (#[trigger] grid.cell(location)).determined is None
            },
    {
        if has_empty_axis(&size) {
            return Err(SizeErr::SizeMustNotBeZero);
        }
        let count = count_cells(&size);
        let template: Pixel<T> = Pixel::default();
        let mut data: Vec<Pixel<T>> = Vec::new();
        let mut made: usize = 0;
        while made < count
            invariant
                made <= count,
                data@.len() == made,
                template@.determined is None,
                forall|i: int| 0 <= i < made ==> (#[trigger] data@[i])@ == template@,
            decreases count - made,
        {
            data.push(template.clone());
            made += 1;
        }
        let grid = Grid { size, data };
        proof {
            assert(is_universe(template@.possible));
            assert forall|i: int| 0 <= i < grid.data@.len() implies (#[trigger] grid.data@[i])@ == (
            PixelView { possible: template@.possible, determined: None }) by {
                assert(grid.data@[i]@ == template@);
            }
            assert forall|location: Seq<int>| within(grid.dims(), location) implies (
            #[trigger] grid.cell(location)).determined is None by {
                lemma_offset_in_volume(grid.dims(), location);
            }
        }
        Ok(grid)
    }

    /// Whether every pixel has taken its value.
    pub fn is_complete(&self) -> (done: bool)
        ensures
            done == self.complete(),
    {
        let mut index: usize = 0;
        while index < self.data.len()
            invariant
                index <= self.data@.len(),
                forall|i: int| 0 <= i < index ==> (#[trigger] self.data@[i])@.determined is Some,
            decreases self.data@.len() - index,
        {
            if self.data[index].determined_value.is_none() {
                return false;
            }
            index += 1;
        }
        true
    }

    /// Returns the n-dimensional size of the Grid.
    /// In all default implementations, this returns a n-tuple where n is the dimensionality of the Grid.
    pub fn size(&self) -> (size: [usize; D])
        ensures
            size == self.size,
    {
        self.size
    }

    /// Where in `data` the pixel at `location` is kept.
    pub fn index_of(&self, location: [usize; D]) -> (index: usize)
        requires
            self.wf(),
            self.has(location),
        ensures
            index == offset(self.dims(), coords(location@)),
            index < self.data@.len(),
    {
        let ghost dims = self.dims();
        let ghost place = coords(location@);
        let total = self.data.len();
        let mut index: usize = 0;
        let mut axis: usize = D;
        proof {
            lemma_offset_in_volume(dims, place);
            assert(dims.skip(D as int) =~= Seq::<int>::empty());
            assert(volume(dims) == total);
        }
        while axis > 0
            invariant
                axis <= D,
                dims == self.dims(),
                place == coords(location@),
                within(dims, place),
                positive(dims),
                volume(dims) <= usize::MAX,
                index == offset(dims.skip(axis as int), place.skip(axis as int)),
            decreases axis,
        {
            axis -= 1;
            proof {
                let d = dims.skip(axis as int);
                let p = place.skip(axis as int);
                assert(d.drop_first() =~= dims.skip(axis + 1));
                assert(p.drop_first() =~= place.skip(axis + 1));
                assert(d[0] == self.size[axis as int]);
                assert(p[0] == location[axis as int]);
                assert forall|i: int| 0 <= i < d.len() implies 0 <= #[trigger] p[i] < d[i] by {
                    assert(p[i] == place[axis + i]);
                    assert(d[i] == dims[axis + i]);
                }
                lemma_offset_in_volume(d, p);
                lemma_volume_suffix(dims, axis as int);
                assert(self.size[axis as int] * index >= 0) by (nonlinear_arith)
                    requires
                        self.size[axis as int] >= 0,
                        index >= 0,
                ;
            }
            index = location[axis] + self.size[axis] * index;
        }
        proof {
            assert(dims.skip(0) =~= dims);
            assert(place.skip(0) =~= place);
        }
        index
    }

    /// The location of the pixel that is kept at `index` of `data`.
    pub fn location_of(&self, index: usize) -> (location: [usize; D])
        requires
            self.wf(),
            index < self.data@.len(),
        ensures
            coords(location@) == position(self.dims(), index as int),
            self.has(location),
            offset(self.dims(), coords(location@)) == index,
    {
        proof {
            assert(coords(self.size@) == self.dims());
            lemma_offset_of_position(self.dims(), index as int);
        }
        unfold(&self.size, index)
    }

    /// Clones and returns a Pixel from the Grid.
    pub fn get_item(&self, location: [usize; D]) -> (pixel: Pixel<T>)
        requires
            self.wf(),
            self.has(location),
        ensures
            pixel@ == self.cell(coords(location@)),
            pixel@.wf(),
    {
        let index = self.index_of(location);
        self.data[index].clone()
    }

    /// Sets a Pixel in the Grid.
    pub fn set_item(&mut self, location: [usize; D], item: Pixel<T>)
        requires
            old(self).wf(),
            old(self).has(location),
            item@.wf(),
        ensures
            final(self).wf(),
            final(self).size == old(self).size,
            final(self).data@ == old(self).data@.update(
                offset(old(self).dims(), coords(location@)),
                item,
            ),
    {
        let index = self.index_of(location);
        self.data[index] = item;
    }

    /// The locations of all cells that are on no axis more than `distance` away from
    /// `location`, itself included, listed with the first axis varying fastest.
    pub fn neighbor_locations(&self, location: [usize; D], distance: usize) -> (near: Vec<
        [usize; D],
    >)
        requires
            self.wf(),
            self.has(location),
        ensures
            places(near@) == neighbor_locations(self.dims(), coords(location@), distance as int),
            forall|k: int| 0 <= k < near@.len() ==> self.has(#[trigger] near@[k]),
    {
        let ghost dims = self.dims();
        let ghost center = coords(location@);
        let ghost reach = distance as int;
        let ghost span = box_extent(dims, center, reach);
        let total = self.data.len();
        let mut low = [0usize; D];
        let mut extent = [0usize; D];
        let mut axis: usize = 0;
        while axis < D
            invariant
                axis <= D,
                dims == self.dims(),
                center == coords(location@),
                reach == distance,
                within(dims, center),
                forall|i: int| 0 <= i < axis ==> #[trigger] low[i] == box_low(center, reach)[i],
                forall|i: int|
                    0 <= i < axis ==> #[trigger] extent[i] == box_extent(dims, center, reach)[i],
            decreases D - axis,
        {
            let at = location[axis];
            let end = self.size[axis];
            proof {
                assert(center[axis as int] == at);
                assert(dims[axis as int] == end);
                assert(0 <= center[axis as int] < dims[axis as int]);
            }
            let first = if at >= distance {
                at - distance
            } else {
                0
            };
            let last = if distance >= end - at {
                end - 1
            } else {
                at + distance
            };
            proof {
                assert(last == box_high(dims, center, reach)[axis as int]);
            }
            low[axis] = first;
            extent[axis] = last - first + 1;
            axis += 1;
        }
        proof {
            assert(coords(low@) =~= box_low(center, reach));
            assert(coords(extent@) =~= span);
            lemma_box_fits(dims, center, reach);
            assert(volume(dims) == total);
        }
        let count = count_cells(&extent);
        let mut near: Vec<[usize; D]> = Vec::new();
        let mut k: usize = 0;
        while k < count
            invariant
                k <= count,
                count == neighbor_count(dims, center, reach),
                dims == self.dims(),
                center == coords(location@),
                reach == distance,
                within(dims, center),
                span == box_extent(dims, center, reach),
                span == coords(extent@),
                positive(span),
                coords(low@) == box_low(center, reach),
                near@.len() == k,
                forall|j: int|
                    0 <= j < k ==> coords((#[trigger] near@[j])@) == neighbor_at(dims, center, reach, j),
                forall|j: int| 0 <= j < k ==> self.has(#[trigger] near@[j]),
            decreases count - k,
        {
            let shift = unfold(&extent, k);
            let mut place = [0usize; D];
            let mut axis: usize = 0;
            proof {
                lemma_offset_of_position(span, k as int);
            }
            while axis < D
                invariant
                    axis <= D,
                    dims == self.dims(),
                    center == coords(location@),
                    reach == distance,
                    within(dims, center),
                    span == box_extent(dims, center, reach),
                    coords(low@) == box_low(center, reach),
                    coords(shift@) == position(span, k as int),
                    within(span, coords(shift@)),
                    forall|i: int| 0 <= i < axis ==> #[trigger] place[i] == low[i] + shift[i],
                decreases D - axis,
            {
                proof {
                    assert(coords(low@)[axis as int] == low[axis as int]);
                    assert(0 <= coords(shift@)[axis as int] < span[axis as int]);
                    assert(0 <= center[axis as int] < dims[axis as int]);
                    assert(dims[axis as int] == self.size[axis as int]);
                }
                place[axis] = low[axis] + shift[axis];
                axis += 1;
            }
            proof {
                assert(coords(place@) =~= neighbor_at(dims, center, reach, k as int)) by {
                    assert forall|i: int| 0 <= i < D implies coords(place@)[i] == neighbor_at(
                        dims,
                        center,
                        reach,
                        k as int,
                    )[i] by {
                        assert(place[i] == low[i] + shift[i]);
                        assert(coords(low@)[i] == low[i]);
                        assert(coords(shift@)[i] == shift[i]);
                    }
                }
                lemma_neighbor_is_near(dims, center, reach, k as int);
            }
            near.push(place);
            k += 1;
        }
        proof {
            assert(places(near@) =~= neighbor_locations(dims, center, reach));
        }
        near
    }

    /// Every entry of `list` is a cell of the grid together with a copy of its pixel.
    pub open spec fn shows(self, list: Seq<([usize; D], Pixel<T>)>) -> bool {
        forall|k: int|
            0 <= k < list.len() ==> self.has((#[trigger] list[k]).0) && list[k].1@ == self.cell(
                coords(list[k].0@),
            )
    }

    /// Pairs each location with a copy of its pixel.
    fn with_pixels(&self, locations: Vec<[usize; D]>) -> (list: Vec<([usize; D], Pixel<T>)>)
        requires
            self.wf(),
            forall|k: int| 0 <= k < locations@.len() ==> self.has(#[trigger] locations@[k]),
        ensures
            listed_places(list@) == places(locations@),
            self.shows(list@),
    {
        let mut list: Vec<([usize; D], Pixel<T>)> = Vec::new();
        let mut k: usize = 0;
        while k < locations.len()
            invariant
                k <= locations.len(),
                self.wf(),
                forall|j: int| 0 <= j < locations@.len() ==> self.has(#[trigger] locations@[j]),
                list@.len() == k,
                forall|j: int| 0 <= j < k ==> (#[trigger] list@[j]).0 == locations@[j],
                self.shows(list@),
            decreases locations.len() - k,
        {
            let location = locations[k];
            let pixel = self.get_item(location);
            list.push((location, pixel));
            k += 1;
        }
        proof {
            assert(listed_places(list@) =~= places(locations@));
        }
        list
    }

    /// Returns unidirectional neighbors, meaning only neighbord with one common face.
    /// This means the corners will not be returned.
    pub fn unidirectional_neighbors(&self, location: [usize; D]) -> (near: Vec<
        ([usize; D], Pixel<T>),
    >)
        requires
            self.wf(),
            self.has(location),
        ensures
            listed_places(near@) == face_locations(self.dims(), coords(location@)),
            self.shows(near@),
    {
        let around = self.neighbor_locations(location, 1);
        let ghost all = neighbor_locations(self.dims(), coords(location@), 1);
        let ghost center = coords(location@);
        let ghost touches = |other: Seq<int>| differing(center, other) == 1;
        let mut faces: Vec<[usize; D]> = Vec::new();
        let mut k: usize = 0;
        while k < around.len()
            invariant
                k <= around.len(),
                places(around@) == all,
                center == coords(location@),
                touches == (|other: Seq<int>| differing(center, other) == 1),
                forall|j: int| 0 <= j < around@.len() ==> self.has(#[trigger] around@[j]),
                places(faces@) == all.take(k as int).filter(touches),
                forall|j: int| 0 <= j < faces@.len() ==> self.has(#[trigger] faces@[j]),
            decreases around.len() - k,
        {
            let other = around[k];
            proof {
                reveal(Seq::filter);
                assert(all.take(k + 1).drop_last() =~= all.take(k as int));
                assert(all.take(k + 1).last() == all[k as int]);
                assert(all[k as int] == places(around@)[k as int]);
                assert(places(around@)[k as int] == coords(other@));
            }
            if axes_apart(&location, &other) == 1 {
                proof {
                    assert(places(faces@.push(other)) =~= places(faces@).push(coords(other@)));
                }
                faces.push(other);
            }
            k += 1;
        }
        proof {
            assert(all.take(around@.len() as int) =~= all);
        }
        self.with_pixels(faces)
    }

    /// Returns all neighbord, including ones touching only at a single point.
    /// This does return corners.
    pub fn neighbors(&self, location: [usize; D], distance: usize) -> (near: Vec<
        ([usize; D], Pixel<T>),
    >)
        requires
            self.wf(),
            self.has(location),
        ensures
            listed_places(near@) == neighbor_locations(
                self.dims(),
                coords(location@),
                distance as int,
            ),
            self.shows(near@),
    {
        let around = self.neighbor_locations(location, distance);
        self.with_pixels(around)
    }

    /// Checks if a location is inside the Grid, then returns its Grid coordinates.
    pub fn check_loc(&self, location: [i128; D]) -> (checked: Option<[usize; D]>)
        ensures
            checked is Some <==> forall|i: int|
                0 <= i < D ==> 0 <= #[trigger] location[i] < self.size[i],
            checked matches Some(inside) ==> forall|i: int|
                0 <= i < D ==> #[trigger] inside[i] == location[i],
    {
        let mut inside = [0usize; D];
        let mut axis: usize = 0;
        while axis < D
            invariant
                axis <= D,
                forall|i: int| 0 <= i < axis ==> 0 <= #[trigger] location[i] < self.size[i],
                forall|i: int| 0 <= i < axis ==> #[trigger] inside[i] == location[i],
            decreases D - axis,
        {
            if location[axis] < 0 || location[axis] >= self.size[axis] as i128 {
                return None;
            }
            inside[axis] = location[axis] as usize;
            axis += 1;
        }
        Some(inside)
    }

    /// Two grids of one size that agree at every location are the same grid.
    pub proof fn lemma_same_cells(self, other: Self)
        requires
            self.wf(),
            other.wf(),
            self.size == other.size,
            forall|location: Seq<int>|
                within(self.dims(), location) ==> #[trigger] self.cell(location) == other.cell(
                    location,
                ),
        ensures
            self@ == other@,
            self.complete() == other.complete(),
    {
        let dims = self.dims();
        assert forall|i: int| 0 <= i < self.data@.len() implies (#[trigger] self.data@[i])@
            == other.data@[i]@ by {
            lemma_offset_of_position(dims, i);
            assert(self.cell(position(dims, i)) == other.cell(position(dims, i)));
        }
        assert(self@.cells =~= other@.cells);
        if self.complete() {
            assert forall|i: int| 0 <= i < other.data@.len() implies (#[trigger] other.data@[i])@.determined is Some by {
                assert(self.data@[i]@ == other.data@[i]@);
            }
        }
        if other.complete() {
            assert forall|i: int| 0 <= i < self.data@.len() implies (#[trigger] self.data@[i])@.determined is Some by {
                assert(self.data@[i]@ == other.data@[i]@);
            }
        }
    }

    /// Every location inside the grid is the view of an executable location.
    pub proof fn lemma_place(self, location: Seq<int>) -> (place: [usize; D])
        requires
            within(self.dims(), location),
        ensures
            coords(place@) == location,
            self.has(place),
    {
        let as_usize = Seq::new(D as nat, |i: int| location[i] as usize);
        let place = lemma_array_of(as_usize);
        assert(coords(place@) =~= location) by {
            assert forall|i: int| 0 <= i < D implies coords(place@)[i] == location[i] by {
                assert(0 <= location[i] < self.dims()[i]);
                assert(self.dims()[i] == self.size@[i]);
            }
        }
        place
    }
}

} // verus!
