//! Applying a constraint to a grid: the single sweep, and the collapse of one pixel with
//! everything that follows from it.
use vstd::prelude::*;
use rand::rngs::StdRng;
use vstd::seq_lib::{to_multiset_contains, to_multiset_len};
use crate::grid::{places, Grid};
use crate::layout::{
    coords, lemma_offset_in_volume, lemma_offset_injective, lemma_position_of_offset, offset,
    within,
};
use crate::neighborhood::{
    lemma_box_fits, lemma_listed_iff_near, lemma_near_self, lemma_neighbors_symmetric, near,
    neighbor_count, neighbor_locations,
};
use crate::random::shuffle_locations;
use crate::pixel::{
    lemma_kept, lemma_narrowed_twice, lemma_recalculated, lemma_same_candidates, narrowed,
    recalculated, verdict,
    Pixel, PixelChangeResult, PixelView, PossibleValues,
};
use crate::rule::{
    all_allowed, allowed, answered, at_rest, backed, denies_nothing, drawable, fails, guarded,
    lemma_nothing_denied,
    is_rule, keeps_weight, lemma_all_allowed, lemma_backed_stays, lemma_borrowed_draw,
    lemma_borrowed_rule, lemma_guarded_by_view,
    permits, reweighs, same_around, swept,
};

verus! {

/// How far the pixels are from being settled, all together.
pub open spec fn total_openness<T>(cells: Seq<Pixel<T>>) -> nat
    decreases cells.len(),
{
    if cells.len() == 0 {
        0
    } else {
        total_openness(cells.drop_last()) + cells.last()@.openness()
    }
}

/// Replacing one pixel changes the total by the difference between the two.
pub proof fn lemma_openness_update<T>(cells: Seq<Pixel<T>>, index: int, pixel: Pixel<T>)
    requires
        0 <= index < cells.len(),
    ensures
        total_openness(cells.update(index, pixel)) + cells[index]@.openness() == total_openness(cells)
            + pixel@.openness(),
    decreases cells.len(),
{
    let changed = cells.update(index, pixel);
    if index == cells.len() - 1 {
        assert(changed.drop_last() =~= cells.drop_last());
    } else {
        lemma_openness_update(cells.drop_last(), index, pixel);
        assert(changed.drop_last() =~= cells.drop_last().update(index, pixel));
    }
}

/// `after` is `before`, or what became of it.
pub open spec fn eased<T>(before: PixelView<T>, after: PixelView<T>) -> bool {
    after == before || narrowed(before, after)
}

/// Two locations with the same coordinates are the same location.
pub proof fn lemma_same_place<const D: usize>(one: [usize; D], other: [usize; D])
    requires
        coords(one@) == coords(other@),
    ensures
        one == other,
{
    assert(one@ =~= other@) by {
        assert forall|i: int| 0 <= i < D implies one@[i] == other@[i] by {
            assert(coords(one@)[i] == one@[i]);
            assert(coords(other@)[i] == other@[i]);
        }
    }
}

/// What was eased twice was eased.
pub proof fn lemma_eased_twice<T>(before: PixelView<T>, between: PixelView<T>, after: PixelView<T>)
    requires
        eased(before, between),
        eased(between, after),
    ensures
        eased(before, after),
{
    if before != between && between != after {
        lemma_narrowed_twice(before, between, after);
    }
}

/// Changing one pixel changes nothing around a cell that is not near it.
pub proof fn lemma_same_away<T: PossibleValues, const D: usize>(
    one: Grid<T, D>,
    other: Grid<T, D>,
    changed: Seq<int>,
    center: Seq<int>,
    reach: int,
)
    requires
        one.wf(),
        one.size == other.size,
        within(one.dims(), changed),
        within(one.dims(), center),
        reach >= 0,
        !near(one.dims(), changed, reach, center),
        other.data@ == one.data@.update(
            offset(one.dims(), changed),
            other.data@[offset(one.dims(), changed)],
        ),
    ensures
        same_around(one, other, center, reach),
{
    let dims = one.dims();
    lemma_offset_in_volume(dims, changed);
    assert forall|place: Seq<int>| near(dims, center, reach, place) implies #[trigger] one.cell(
        place,
    ) == other.cell(place) by {
        lemma_offset_in_volume(dims, place);
        if offset(dims, place) == offset(dims, changed) {
            lemma_offset_injective(dims, place, changed);
            lemma_neighbors_symmetric(dims, center, changed, reach);
        }
    }
}

impl<T: PossibleValues, const D: usize> Grid<T, D> {
    /// Looks at `pixel`, which stands for the cell at `location`. If it changed, it is
    /// written back and the cells within `effect_distance` of it are put at the end of
    /// `to_update`, in random order.
    fn update<F: Fn(&Self, [usize; D], &T, u32) -> (bool, u32)>(
        &mut self,
        to_update: &mut Vec<[usize; D]>,
        location: [usize; D],
        pixel: Pixel<T>,
        test: &F,
        effect_distance: usize,
        rng: &mut StdRng,
        should_collapse: bool,
    ) -> (result: PixelChangeResult)
        requires
            old(self).wf(),
            old(self).has(location),
            pixel@.wf(),
            is_rule(*test),
            forall|k: int|
                0 <= k < old(to_update)@.len() ==> old(self).has(#[trigger] old(to_update)@[k]),
            should_collapse && pixel@.determined is None && allowed(
                *test,
                *old(self),
                location,
                pixel@.possible,
            ).len() >= 2 ==> drawable(*test, *old(self), location, pixel@.possible),
        ensures
            answered(*test, *old(self), location, pixel@.possible),
            keeps_weight(*test) && old(self).weighted() && pixel@.weighted() ==> final(self).weighted(),
            final(self).wf(),
            final(self).size == old(self).size,
            forall|k: int|
                0 <= k < final(to_update)@.len() ==> final(self).has(
                    #[trigger] final(to_update)@[k],
                ),
            result == verdict(
                pixel@,
                allowed(*test, *old(self), location, pixel@.possible),
                should_collapse,
            ),
            result != PixelChangeResult::Updated ==> {
                &&& *final(self) == *old(self)
                &&& final(to_update)@ == old(to_update)@
            },
            result == PixelChangeResult::Updated ==> {
                let spot = offset(old(self).dims(), coords(location@));
                &&& final(self).data@ == old(self).data@.update(spot, final(self).data@[spot])
                &&& recalculated(
                    pixel@,
                    allowed(*test, *old(self), location, pixel@.possible),
                    should_collapse,
                    final(self).data@[spot]@,
                    result,
                )
                &&& final(to_update)@.len() == old(to_update)@.len() + neighbor_count(
                    old(self).dims(),
                    coords(location@),
                    effect_distance as int,
                )
                &&& final(to_update)@.take(old(to_update)@.len() as int) == old(to_update)@
                &&& exists|listed: Seq<[usize; D]>|
                    {
                        &&& #[trigger] places(listed) == neighbor_locations(
                            old(self).dims(),
                            coords(location@),
                            effect_distance as int,
                        )
                        &&& final(to_update)@.skip(old(to_update)@.len() as int).to_multiset()
                            == listed.to_multiset()
                    }
                &&& forall|k: int|
                    old(to_update)@.len() <= k < final(to_update)@.len() ==> near(
                        old(self).dims(),
                        coords(location@),
                        effect_distance as int,
                        coords((#[trigger] final(to_update)@[k])@),
                    )
                &&& forall|other: [usize; D]|
                    near(old(self).dims(), coords(location@), effect_distance as int, coords(other@))
                        ==> final(to_update)@.contains(other)
            },
    {
        let mut pixel = pixel;
        let ghost before = pixel@;
        proof {
            lemma_borrowed_rule(*test, *self);
            lemma_borrowed_draw(*test, *self, location, before.possible);
        }
        let result = if should_collapse {
            pixel.recalc(&*self, location, test, Some(&mut *rng))
        } else {
            pixel.recalc(&*self, location, test, None)
        };
        proof {
            lemma_borrowed_rule(*test, *self);
            lemma_recalculated(
                before,
                permits(*test, *self, location),
                reweighs(*test, *self, location),
                should_collapse,
                pixel@,
                result,
            );
            lemma_offset_in_volume(self.dims(), coords(location@));
        }
        match result {
            PixelChangeResult::Updated => {
                self.set_item(location, pixel);
                let mut to_add = self.neighbor_locations(location, effect_distance);
                let ghost listed = to_add@;
                shuffle_locations(&mut to_add, rng);
                let ghost waiting = to_update@;
                let ghost added = to_add@;
                proof {
                    assert forall|k: int| 0 <= k < added.len() implies self.has(
                        #[trigger] added[k],
                    ) by {
                        to_multiset_contains(added, added[k]);
                        to_multiset_contains(listed, added[k]);
                        assert(added.contains(added[k]));
                        let j = choose|j: int| 0 <= j < listed.len() && listed[j] == added[k];
                        assert(self.has(listed[j]));
                    }
                    to_multiset_len(added);
                    to_multiset_len(listed);
                    lemma_box_fits(self.dims(), coords(location@), effect_distance as int);
                    assert(places(listed).len() == listed.len());
                }
                to_update.append(&mut to_add);
                proof {
                    assert(to_update@ =~= waiting + added);
                    assert(to_update@.take(waiting.len() as int) =~= waiting);
                    assert(to_update@.skip(waiting.len() as int) =~= added);
                    assert forall|k: int| waiting.len() <= k < to_update@.len() implies near(
                        self.dims(),
                        coords(location@),
                        effect_distance as int,
                        coords((#[trigger] to_update@[k])@),
                    ) by {
                        let item = added[k - waiting.len()];
                        assert(to_update@[k] == item);
                        assert(added.contains(item));
                        to_multiset_contains(added, item);
                        to_multiset_contains(listed, item);
                        let j = choose|j: int| 0 <= j < listed.len() && listed[j] == item;
                        assert(places(listed)[j] == coords(item@));
                        let all = neighbor_locations(
                            self.dims(),
                            coords(location@),
                            effect_distance as int,
                        );
                        assert(all[j] == coords(item@));
                        assert(all.contains(coords(item@)));
                        lemma_listed_iff_near(
                            self.dims(),
                            coords(location@),
                            effect_distance as int,
                            coords(item@),
                        );
                    }
                    assert(places(listed) == neighbor_locations(
                        self.dims(),
                        coords(location@),
                        effect_distance as int,
                    ));
                    assert forall|other: [usize; D]|
                        near(
                            self.dims(),
                            coords(location@),
                            effect_distance as int,
                            coords(other@),
                        ) implies to_update@.contains(other) by {
                        lemma_listed_iff_near(
                            self.dims(),
                            coords(location@),
                            effect_distance as int,
                            coords(other@),
                        );
                        let all = neighbor_locations(
                            self.dims(),
                            coords(location@),
                            effect_distance as int,
                        );
                        let k = choose|k: int| 0 <= k < all.len() && all[k] == coords(other@);
                        assert(places(listed)[k] == coords(listed[k]@));
                        assert(listed[k]@ =~= other@) by {
                            assert forall|i: int| 0 <= i < D implies listed[k]@[i] == other@[i] by {
                                assert(coords(listed[k]@)[i] == listed[k]@[i]);
                                assert(coords(other@)[i] == other@[i]);
                            }
                        }
                        assert(listed[k] == other);
                        assert(listed.contains(other));
                        to_multiset_contains(listed, other);
                        to_multiset_contains(added, other);
                        let j = choose|j: int| 0 <= j < added.len() && added[j] == other;
                        assert(to_update@[waiting.len() + j] == other);
                    }
                }
            },
            _ => {},
        }
        result
    }

    /// Collapses a single Pixel and updates neighbors. This will return the location of a
    /// pixel without a candidate if the Grid is invalid.
    /// Please note that this function is not very useful, and you should use wfc instead
    ///
    /// `item` is a cell and the pixel to start from. That pixel is looked at first, and made
    /// to take a value. Whenever a look changes a pixel, the cells within `effect_distance`
    /// of it are looked at again, each in the state it has by then. The first pixel that is
    /// left without a candidate ends the work, and its location is returned.
    ///
    /// Where a value is to be picked for the given pixel among two or more candidates, one
    /// of them must have a weight above zero; the value that is picked is one of these.
    pub fn collapse<F>(
        &mut self,
        test: F,
        effect_distance: usize,
        rng: &mut StdRng,
        item: ([usize; D], Pixel<T>),
    ) -> (collapsed: Result<(), [usize; D]>) where F: Fn(&Self, [usize; D], &T, u32) -> (bool, u32)
        requires
            old(self).wf(),
            old(self).has(item.0),
            item.1@.wf(),
            is_rule(test),
            item.1@.determined is None && allowed(test, *old(self), item.0, item.1@.possible).len()
                >= 2 ==> drawable(test, *old(self), item.0, item.1@.possible),
        ensures
            final(self).wf(),
            final(self).size == old(self).size,
            keeps_weight(test) && old(self).weighted() && item.1@.weighted() ==> final(self).weighted(),
            collapsed matches Err(location) ==> {
                &&& old(self).has(location)
                &&& {
                    ||| location == item.0 && allowed(
                        test,
                        *old(self),
                        item.0,
                        item.1@.possible,
                    ).len() == 0
                    ||| allowed(
                        test,
                        *final(self),
                        location,
                        final(self).cell(coords(location@)).possible,
                    ).len() == 0
                }
            },
            ({
                let kept = allowed(test, *old(self), item.0, item.1@.possible);
                let seed = final(self).cell(coords(item.0@));
                &&& kept.len() == 0 ==> {
                    &&& collapsed == Err::<(), [usize; D]>(item.0)
                    &&& *final(self) == *old(self)
                }
                &&& kept.len() > 0 && item.1@.determined is Some ==> {
                    &&& collapsed is Ok
                    &&& *final(self) == *old(self)
                }
                &&& kept.len() > 0 && item.1@.determined is None ==> exists|candidate: (T, u32)| #[trigger]
                    kept.contains(candidate) && (kept.len() >= 2 ==> candidate.1 > 0) && seed
                        == PixelView::of(candidate.0)
            }),
            forall|location: Seq<int>|
                within(old(self).dims(), location) && location != coords(item.0@) ==> eased(
                    old(self).cell(location),
                    #[trigger] final(self).cell(location),
                ),
            forall|location: Seq<int>|
                within(old(self).dims(), location) && old(self).cell(location).possible.len() > 0
                    ==> (#[trigger] final(self).cell(location)).possible.len() > 0,
            item.1@ == old(self).cell(coords(item.0@)) ==> forall|location: Seq<int>|
                within(old(self).dims(), location) ==> eased(
                    old(self).cell(location),
                    #[trigger] final(self).cell(location),
                ),
            forall|exempt: Set<[usize; D]>|
                collapsed is Ok && #[trigger] guarded(
                    test,
                    *old(self),
                    exempt,
                    effect_distance as int,
                ) ==> guarded(test, *final(self), exempt, effect_distance as int),
            forall|location: [usize; D]| #[trigger]
                old(self).has(location) && location != item.0 ==> {
                    &&& final(self).cell(coords(location@)) != old(self).cell(coords(location@))
                        ==> final(self).stirred(
                        *old(self),
                        item.0,
                        effect_distance as int,
                        location,
                        true,
                    )
                    &&& effect_distance == 0 ==> final(self).cell(coords(location@)) == old(self).cell(coords(location@))
                    &&& denies_nothing(test) && (old(self).cell(coords(location@)).determined is Some
                        || old(self).cell(coords(location@)).possible.len() >= 2) ==> final(self).cell(coords(location@)) == old(self).cell(coords(location@))
                },
            collapsed matches Err(location) ==> location == item.0 || final(self).stirred(
                *old(self),
                item.0,
                effect_distance as int,
                location,
                false,
            ),
            collapsed is Ok && item.1@.determined is None ==> forall|location: [usize; D]| #[trigger]
                final(self).has(location) && final(self).stirred(
                    *old(self),
                    item.0,
                    effect_distance as int,
                    location,
                    false,
                ) ==> backed(test, *final(self), location, effect_distance as int),
            denies_nothing(test) && old(self).stocked() && item.1@.possible.len() > 0
                ==> collapsed is Ok,
    {
        let ghost dims = self.dims();
        let ghost reach = effect_distance as int;
        let ghost entry = self.data@;
        let ghost spot = offset(dims, coords(item.0@));
        let ghost first = item.1@;
        let ghost kept = allowed(test, *self, item.0, first.possible);
        let seed = item.0;
        let mut to_update: Vec<[usize; D]> = Vec::new();
        proof {
            lemma_offset_in_volume(dims, coords(seed@));
            lemma_borrowed_rule(test, *self);
            lemma_borrowed_draw(test, *self, seed, first.possible);
            lemma_kept(first.possible, permits(test, *self, seed), reweighs(test, *self, seed));
        }
        let result = self.update(&mut to_update, seed, item.1, &test, effect_distance, rng, true);
        if result == PixelChangeResult::Invalid {
            proof {
                if denies_nothing(test) {
                    lemma_nothing_denied(test, *old(self), seed, first.possible);
                }
            }
            return Err(seed);
        }
        if result == PixelChangeResult::Unchanged {
            proof {
                assert forall|location: Seq<int>|
                    within(dims, location) && location != coords(seed@) implies eased(
                    old(self).cell(location),
                    #[trigger] self.cell(location),
                ) by {}
                assert(self@.cells =~= old(self)@.cells);
                assert forall|exempt: Set<[usize; D]>| #[trigger]
                    guarded(test, *old(self), exempt, reach) implies guarded(
                    test,
                    *self,
                    exempt,
                    reach,
                ) by {
                    lemma_guarded_by_view(test, *old(self), *self, exempt, reach);
                }
            }
            return Ok(());
        }
        let ghost start = self.data@;
        proof {
            lemma_recalculated(
                first,
                permits(test, *old(self), seed),
                reweighs(test, *old(self), seed),
                true,
                start[spot]@,
                result,
            );
            if kept.len() == 1 {
                assert(kept.contains(kept[0]));
            }
            assert forall|exempt: Set<[usize; D]>| #[trigger]
                guarded(test, *old(self), exempt, reach) implies self.watched(
                test,
                exempt,
                reach,
                to_update@,
            ) by {
                self.lemma_watch_kept(
                    test,
                    *old(self),
                    seed,
                    exempt,
                    reach,
                    Seq::empty(),
                    Seq::empty(),
                    to_update@,
                );
            }
            self.lemma_followed_first(test, *old(self), seed, reach, to_update@);
        }
        while to_update.len() > 0
            invariant
                self.wf(),
                old(self).wf(),
                old(self).data@ == entry,
                old(self).has(seed),
                seed == item.0,
                first == item.1@,
                self.size == old(self).size,
                dims == self.dims(),
                is_rule(test),
                spot == offset(dims, coords(seed@)),
                kept == allowed(test, *old(self), seed, first.possible),
                first.determined is None,
                exists|candidate: (T, u32)| #[trigger]
                    kept.contains(candidate) && (kept.len() >= 2 ==> candidate.1 > 0)
                        && start[spot]@ == PixelView::of(candidate.0),
                0 <= spot < entry.len(),
                start.len() == entry.len(),
                self.data@.len() == entry.len(),
                start == entry.update(spot, start[spot]),
                start[spot]@.determined is Some,
                narrowed(first, start[spot]@),
                forall|k: int| 0 <= k < to_update@.len() ==> self.has(#[trigger] to_update@[k]),
                forall|i: int|
                    0 <= i < start.len() ==> eased(start[i]@, (#[trigger] self.data@[i])@),
                reach == effect_distance,
                self.followed(test, *old(self), seed, reach, to_update@),
                keeps_weight(test) && old(self).weighted() && first.weighted() ==> self.weighted(),
                forall|exempt: Set<[usize; D]>| #[trigger]
                    guarded(test, *old(self), exempt, reach) ==> self.watched(
                        test,
                        exempt,
                        reach,
                        to_update@,
                    ),
            decreases total_openness(self.data@), to_update@.len(),
        {
            let ghost waiting = to_update@;
            let location = to_update.remove(0);
            let ghost rest = to_update@;
            let pixel = self.get_item(location);
            let ghost grid = *self;
            let ghost before = self.data@;
            let ghost at = offset(dims, coords(location@));
            proof {
                lemma_offset_in_volume(dims, coords(location@));
            }
            let result = self.update(
                &mut to_update,
                location,
                pixel,
                &test,
                effect_distance,
                rng,
                false,
            );
            if result == PixelChangeResult::Invalid {
                proof {
                    self.lemma_collapsed(*old(self), entry, start, coords(seed@));
                    assert(self.stirred(*old(self), seed, reach, waiting[0], false));
                    self.lemma_followed_gives(test, *old(self), seed, reach, waiting);
                    if denies_nothing(test) && old(self).stocked() {
                        lemma_nothing_denied(
                            test,
                            grid,
                            location,
                            grid.cell(coords(location@)).possible,
                        );
                        if coords(location@) != coords(seed@) {
                            assert(eased(
                                old(self).cell(coords(location@)),
                                self.cell(coords(location@)),
                            ));
                        }
                        assert(false);
                    }
                }
                return Err(location);
            }
            proof {
                lemma_borrowed_rule(test, grid);
                assert(rest =~= waiting.skip(1));
                lemma_kept(
                    grid.cell(coords(location@)).possible,
                    permits(test, grid, location),
                    reweighs(test, grid, location),
                );
                lemma_box_fits(dims, coords(location@), reach);
                assert forall|exempt: Set<[usize; D]>| #[trigger]
                    guarded(test, *old(self), exempt, reach) implies self.watched(
                    test,
                    exempt,
                    reach,
                    to_update@,
                ) by {
                    assert(grid.watched(test, exempt, reach, waiting));
                    if result == PixelChangeResult::Updated {
                        self.lemma_watch_kept(
                            test,
                            grid,
                            location,
                            exempt,
                            reach,
                            waiting,
                            rest,
                            to_update@,
                        );
                    } else {
                        lemma_all_allowed(
                            test,
                            grid,
                            location,
                            grid.cell(coords(location@)).possible,
                        );
                        self.lemma_watch_looked(test, grid, location, exempt, reach, waiting);
                    }
                }
                if result == PixelChangeResult::Updated {
                    lemma_recalculated(
                        before[at]@,
                        permits(test, grid, location),
                        reweighs(test, grid, location),
                        false,
                        self.data@[at]@,
                        result,
                    );
                    if denies_nothing(test) {
                        lemma_nothing_denied(
                            test,
                            grid,
                            location,
                            grid.cell(coords(location@)).possible,
                        );
                    }
                    self.lemma_followed_changed(
                        test,
                        *old(self),
                        seed,
                        reach,
                        grid,
                        location,
                        waiting,
                        to_update@,
                    );
                } else {
                    lemma_all_allowed(test, grid, location, grid.cell(coords(location@)).possible);
                    self.lemma_followed_looked(
                        test,
                        *old(self),
                        seed,
                        reach,
                        grid,
                        location,
                        waiting,
                    );
                }
                if result == PixelChangeResult::Updated {
                    let ghost now = self.data@;
                    lemma_recalculated(
                        before[at]@,
                        permits(test, grid, location),
                        reweighs(test, grid, location),
                        false,
                        now[at]@,
                        result,
                    );
                    lemma_openness_update(before, at, now[at]);
                    assert forall|i: int| 0 <= i < start.len() implies eased(
                        start[i]@,
                        (#[trigger] now[i])@,
                    ) by {
                        if i == at {
                            assert(eased(start[i]@, before[i]@));
                            if start[i]@ != before[i]@ {
                                lemma_narrowed_twice(start[i]@, before[i]@, now[i]@);
                            }
                        } else {
                            assert(now[i] == before[i]);
                        }
                    }
                }
            }
        }
        proof {
            self.lemma_collapsed(*old(self), entry, start, coords(seed@));
            assert forall|exempt: Set<[usize; D]>| #[trigger]
                guarded(test, *old(self), exempt, reach) implies guarded(
                test,
                *self,
                exempt,
                reach,
            ) by {
                assert(self.watched(test, exempt, reach, to_update@));
            }
            self.lemma_followed_gives(test, *old(self), seed, reach, to_update@);
        }
        Ok(())
    }

    /// The pixel at `location` is nearer to being settled than it was in `before`.
    pub open spec fn lowered(self, before: Self, location: [usize; D]) -> bool {
        self.cell(coords(location@)).openness() < before.cell(coords(location@)).openness()
    }

    /// The cell at `location` lies within `reach` of the cell `seed`, or of a cell whose
    /// pixel is nearer to being settled than it was in `before`; where `by_another` is set,
    /// that cell is another one than `location`.
    pub open spec fn stirred(
        self,
        before: Self,
        seed: [usize; D],
        reach: int,
        location: [usize; D],
        by_another: bool,
    ) -> bool {
        exists|source: [usize; D]|
            {
                &&& #[trigger] self.has(source)
                &&& near(self.dims(), coords(source@), reach, coords(location@))
                &&& source == seed || self.lowered(before, source)
                &&& by_another ==> source != location
            }
    }

    /// What the loop of `collapse` keeps true of the cells it changes and of the cells it
    /// has yet to look at.
    pub open spec fn followed<F: Fn(&Self, [usize; D], &T, u32) -> (bool, u32)>(
        self,
        test: F,
        before: Self,
        seed: [usize; D],
        reach: int,
        queue: Seq<[usize; D]>,
    ) -> bool {
        &&& forall|location: [usize; D]| #[trigger]
            self.has(location) && location != seed ==> {
                &&& self.cell(coords(location@)) == before.cell(coords(location@)) || self.lowered(
                    before,
                    location,
                )
                &&& self.lowered(before, location) ==> self.stirred(
                    before,
                    seed,
                    reach,
                    location,
                    true,
                )
                &&& denies_nothing(test) && (before.cell(coords(location@)).determined is Some
                    || before.cell(coords(location@)).possible.len() >= 2) ==> self.cell(
                    coords(location@),
                ) == before.cell(coords(location@))
            }
        &&& forall|k: int|
            0 <= k < queue.len() ==> self.has(#[trigger] queue[k]) && self.stirred(
                before,
                seed,
                reach,
                queue[k],
                false,
            )
        &&& forall|location: [usize; D]| #[trigger]
            self.has(location) && self.stirred(before, seed, reach, location, false) ==> backed(
                test,
                self,
                location,
                reach,
            ) || queue.contains(location)
    }

    /// Once the first look has made the seed take a value and has put the cells around it on
    /// the queue, the cells are followed.
    proof fn lemma_followed_first<F: Fn(&Self, [usize; D], &T, u32) -> (bool, u32)>(
        self,
        test: F,
        before: Self,
        seed: [usize; D],
        reach: int,
        queue: Seq<[usize; D]>,
    )
        requires
            before.wf(),
            self.wf(),
            self.size == before.size,
            before.has(seed),
            reach >= 0,
            self.data@ == before.data@.update(
                offset(before.dims(), coords(seed@)),
                self.data@[offset(before.dims(), coords(seed@))],
            ),
            forall|k: int|
                0 <= k < queue.len() ==> self.has(#[trigger] queue[k]) && near(
                    before.dims(),
                    coords(seed@),
                    reach,
                    coords(queue[k]@),
                ),
            forall|other: [usize; D]|
                near(before.dims(), coords(seed@), reach, coords(other@)) ==> queue.contains(other),
        ensures
            self.followed(test, before, seed, reach, queue),
    {
        self.lemma_differs_at(before, seed);
        assert forall|k: int| 0 <= k < queue.len() implies self.has(#[trigger] queue[k])
            && self.stirred(before, seed, reach, queue[k], false) by {
            assert(self.has(seed));
        }
        assert forall|location: [usize; D]| #[trigger]
            self.has(location) && self.stirred(before, seed, reach, location, false) implies backed(
            test,
            self,
            location,
            reach,
        ) || queue.contains(location) by {
            let source = choose|source: [usize; D]|
                {
                    &&& #[trigger] self.has(source)
                    &&& near(self.dims(), coords(source@), reach, coords(location@))
                    &&& source == seed || self.lowered(before, source)
                    &&& false ==> source != location
                };
            if source != seed {
                assert(self.cell(coords(source@)) == before.cell(coords(source@)));
            }
        }
    }

    /// What follows of the cells that were followed: a pixel other than the seed's changed
    /// only if another cell within reach changed or is the seed, so none changed where the
    /// reach is zero; and once no cell is left on the queue, every cell within reach of a
    /// change is backed.
    proof fn lemma_followed_gives<F: Fn(&Self, [usize; D], &T, u32) -> (bool, u32)>(
        self,
        test: F,
        before: Self,
        seed: [usize; D],
        reach: int,
        queue: Seq<[usize; D]>,
    )
        requires
            self.size == before.size,
            self.followed(test, before, seed, reach, queue),
        ensures
            forall|location: [usize; D]| #[trigger]
                before.has(location) && location != seed ==> {
                    &&& self.cell(coords(location@)) != before.cell(coords(location@))
                        ==> self.stirred(before, seed, reach, location, true)
                    &&& reach == 0 ==> self.cell(coords(location@)) == before.cell(
                        coords(location@),
                    )
                    &&& denies_nothing(test) && (before.cell(coords(location@)).determined is Some
                        || before.cell(coords(location@)).possible.len() >= 2) ==> self.cell(
                        coords(location@),
                    ) == before.cell(coords(location@))
                },
            queue.len() == 0 ==> forall|location: [usize; D]| #[trigger]
                self.has(location) && self.stirred(before, seed, reach, location, false) ==> backed(
                    test,
                    self,
                    location,
                    reach,
                ),
    {
        assert forall|location: [usize; D]| #[trigger]
            before.has(location) && location != seed implies {
            &&& self.cell(coords(location@)) != before.cell(coords(location@)) ==> self.stirred(
                before,
                seed,
                reach,
                location,
                true,
            )
            &&& reach == 0 ==> self.cell(coords(location@)) == before.cell(coords(location@))
            &&& denies_nothing(test) && (before.cell(coords(location@)).determined is Some
                || before.cell(coords(location@)).possible.len() >= 2) ==> self.cell(
                coords(location@),
            ) == before.cell(coords(location@))
        } by {
            assert(self.has(location));
            if reach == 0 && self.lowered(before, location) {
                let source = choose|source: [usize; D]|
                    {
                        &&& #[trigger] self.has(source)
                        &&& near(self.dims(), coords(source@), reach, coords(location@))
                        &&& source == seed || self.lowered(before, source)
                        &&& true ==> source != location
                    };
                assert(coords(source@) =~= coords(location@)) by {
                    assert forall|i: int| 0 <= i < coords(source@).len() implies coords(
                        source@,
                    )[i] == coords(location@)[i] by {
                        assert(-0 <= coords(location@)[i] - coords(source@)[i] <= 0);
                    }
                }
                lemma_same_place(source, location);
            }
        }
        if queue.len() == 0 {
            assert forall|location: [usize; D]| #[trigger]
                self.has(location) && self.stirred(before, seed, reach, location, false) implies backed(
                test,
                self,
                location,
                reach,
            ) by {
                assert(!queue.contains(location));
            }
        }
    }

    /// All cells but `changed` hold in this grid what they hold in `prior`.
    pub open spec fn differs_at(self, prior: Self, changed: [usize; D]) -> bool {
        &&& self.size == prior.size
        &&& forall|location: [usize; D]| #[trigger]
            self.has(location) && location != changed ==> self.cell(coords(location@))
                == prior.cell(coords(location@))
    }

    /// A grid in which one pixel was written holds elsewhere what it held.
    proof fn lemma_differs_at(self, prior: Self, changed: [usize; D])
        requires
            prior.wf(),
            self.size == prior.size,
            prior.has(changed),
            self.data@ == prior.data@.update(
                offset(prior.dims(), coords(changed@)),
                self.data@[offset(prior.dims(), coords(changed@))],
            ),
        ensures
            self.differs_at(prior, changed),
    {
        let dims = prior.dims();
        lemma_offset_in_volume(dims, coords(changed@));
        assert forall|location: [usize; D]| #[trigger]
            self.has(location) && location != changed implies self.cell(coords(location@))
            == prior.cell(coords(location@)) by {
            lemma_offset_in_volume(dims, coords(location@));
            if offset(dims, coords(location@)) == offset(dims, coords(changed@)) {
                lemma_offset_injective(dims, coords(location@), coords(changed@));
                lemma_same_place(location, changed);
            }
        }
    }

    /// What was stirred before a pixel was lowered further is stirred after.
    proof fn lemma_stirred_stays(
        self,
        prior: Self,
        before: Self,
        seed: [usize; D],
        reach: int,
        changed: [usize; D],
        location: [usize; D],
        by_another: bool,
    )
        requires
            self.differs_at(prior, changed),
            prior.has(changed),
            changed == seed || self.lowered(before, changed),
            prior.stirred(before, seed, reach, location, by_another),
        ensures
            self.stirred(before, seed, reach, location, by_another),
    {
        let source = choose|source: [usize; D]|
            {
                &&& #[trigger] prior.has(source)
                &&& near(prior.dims(), coords(source@), reach, coords(location@))
                &&& source == seed || prior.lowered(before, source)
                &&& by_another ==> source != location
            };
        assert(self.has(source));
        if source != changed {
            assert(self.cell(coords(source@)) == prior.cell(coords(source@)));
        }
        assert(source == seed || self.lowered(before, source));
    }

    /// A look that changed the pixel at `changed`, lowering it, and put the cells around it
    /// at the end of the queue keeps the cells followed.
    proof fn lemma_followed_changed<F: Fn(&Self, [usize; D], &T, u32) -> (bool, u32)>(
        self,
        test: F,
        before: Self,
        seed: [usize; D],
        reach: int,
        prior: Self,
        changed: [usize; D],
        waiting: Seq<[usize; D]>,
        queue: Seq<[usize; D]>,
    )
        requires
            before.wf(),
            prior.wf(),
            self.wf(),
            prior.size == before.size,
            before.has(seed),
            prior.has(changed),
            reach >= 0,
            self.data@ == prior.data@.update(
                offset(prior.dims(), coords(changed@)),
                self.data@[offset(prior.dims(), coords(changed@))],
            ),
            self.size == prior.size,
            self.cell(coords(changed@)).openness() < prior.cell(coords(changed@)).openness(),
            changed != seed && denies_nothing(test) ==> prior.cell(coords(changed@)).determined is None
                && prior.cell(coords(changed@)).possible.len() == 1,
            prior.followed(test, before, seed, reach, waiting),
            waiting.len() > 0,
            waiting[0] == changed,
            waiting.len() - 1 <= queue.len(),
            queue.take(waiting.len() - 1) == waiting.skip(1),
            forall|k: int|
                waiting.len() - 1 <= k < queue.len() ==> self.has(#[trigger] queue[k]) && near(
                    prior.dims(),
                    coords(changed@),
                    reach,
                    coords(queue[k]@),
                ),
            forall|other: [usize; D]|
                near(prior.dims(), coords(changed@), reach, coords(other@)) ==> queue.contains(
                    other,
                ),
        ensures
            self.followed(test, before, seed, reach, queue),
    {
        let dims = prior.dims();
        let rest = waiting.skip(1);
        self.lemma_differs_at(prior, changed);
        lemma_near_self(dims, coords(changed@), reach);
        // The pixel that changed lies lower than it lay before the call.
        if changed != seed {
            assert(prior.has(changed));
            assert(prior.cell(coords(changed@)) == before.cell(coords(changed@)) || prior.lowered(
                before,
                changed,
            ));
            assert(self.lowered(before, changed));
        }
        assert(prior.stirred(before, seed, reach, changed, false));
        assert forall|location: [usize; D], by_another: bool|
            prior.stirred(before, seed, reach, location, by_another) implies self.stirred(
            before,
            seed,
            reach,
            location,
            by_another,
        ) by {
            self.lemma_stirred_stays(prior, before, seed, reach, changed, location, by_another);
        }
        assert forall|location: [usize; D]| #[trigger]
            self.has(location) && location != seed implies {
            &&& self.cell(coords(location@)) == before.cell(coords(location@)) || self.lowered(
                before,
                location,
            )
            &&& self.lowered(before, location) ==> self.stirred(before, seed, reach, location, true)
            &&& denies_nothing(test) && (before.cell(coords(location@)).determined is Some
                || before.cell(coords(location@)).possible.len() >= 2) ==> self.cell(
                coords(location@),
            ) == before.cell(coords(location@))
        } by {
            assert(prior.has(location));
            if location == changed {
                if !prior.lowered(before, changed) {
                    // It was looked at because it is within reach of another cell.
                    let source = choose|source: [usize; D]|
                        {
                            &&& #[trigger] prior.has(source)
                            &&& near(prior.dims(), coords(source@), reach, coords(changed@))
                            &&& source == seed || prior.lowered(before, source)
                            &&& false ==> source != changed
                        };
                    assert(source != changed);
                    assert(prior.stirred(before, seed, reach, changed, true));
                }
                assert(prior.stirred(before, seed, reach, changed, true));
            } else {
                assert(self.cell(coords(location@)) == prior.cell(coords(location@)));
            }
        }
        assert forall|k: int| 0 <= k < queue.len() implies self.has(#[trigger] queue[k])
            && self.stirred(before, seed, reach, queue[k], false) by {
            if k < waiting.len() - 1 {
                assert(queue.take(waiting.len() - 1)[k] == rest[k]);
                assert(queue[k] == waiting[k + 1]);
                assert(prior.has(waiting[k + 1]));
            } else {
                assert(self.has(changed));
                assert(changed == seed || self.lowered(before, changed));
            }
        }
        assert forall|location: [usize; D]| #[trigger]
            self.has(location) && self.stirred(before, seed, reach, location, false) implies backed(
            test,
            self,
            location,
            reach,
        ) || queue.contains(location) by {
            if !near(dims, coords(changed@), reach, coords(location@)) {
                let source = choose|source: [usize; D]|
                    {
                        &&& #[trigger] self.has(source)
                        &&& near(self.dims(), coords(source@), reach, coords(location@))
                        &&& source == seed || self.lowered(before, source)
                        &&& false ==> source != location
                    };
                assert(source != changed);
                assert(prior.has(source));
                assert(self.cell(coords(source@)) == prior.cell(coords(source@)));
                assert(prior.stirred(before, seed, reach, location, false));
                assert(prior.has(location));
                if backed(test, prior, location, reach) {
                    lemma_same_away(prior, self, coords(changed@), coords(location@), reach);
                    lemma_backed_stays(test, prior, self, location, reach);
                } else {
                    assert(waiting.contains(location));
                    let k = choose|k: int| 0 <= k < waiting.len() && waiting[k] == location;
                    assert(k >= 1);
                    assert(rest[k - 1] == location);
                    assert(queue.take(waiting.len() - 1)[k - 1] == location);
                    assert(queue[k - 1] == location);
                }
            }
        }
    }

    /// A look at the pixel at `looked` that found nothing to change keeps the cells followed
    /// once `looked` is off the queue.
    proof fn lemma_followed_looked<F: Fn(&Self, [usize; D], &T, u32) -> (bool, u32)>(
        self,
        test: F,
        before: Self,
        seed: [usize; D],
        reach: int,
        prior: Self,
        looked: [usize; D],
        waiting: Seq<[usize; D]>,
    )
        requires
            prior.wf(),
            self.wf(),
            self.size == prior.size,
            self.data@ == prior.data@,
            prior.has(looked),
            reach >= 0,
            prior.followed(test, before, seed, reach, waiting),
            waiting.len() > 0,
            waiting[0] == looked,
            all_allowed(test, prior, looked, prior.cell(coords(looked@)).possible),
        ensures
            self.followed(test, before, seed, reach, waiting.skip(1)),
    {
        let rest = waiting.skip(1);
        assert forall|place: Seq<int>| prior.cell(place) == self.cell(place) by {}
        assert forall|location: [usize; D], by_another: bool|
            prior.stirred(before, seed, reach, location, by_another) == self.stirred(
                before,
                seed,
                reach,
                location,
                by_another,
            ) by {
            if prior.stirred(before, seed, reach, location, by_another) {
                let source = choose|source: [usize; D]|
                    {
                        &&& #[trigger] prior.has(source)
                        &&& near(prior.dims(), coords(source@), reach, coords(location@))
                        &&& source == seed || prior.lowered(before, source)
                        &&& by_another ==> source != location
                    };
                assert(self.has(source));
            }
            if self.stirred(before, seed, reach, location, by_another) {
                let source = choose|source: [usize; D]|
                    {
                        &&& #[trigger] self.has(source)
                        &&& near(self.dims(), coords(source@), reach, coords(location@))
                        &&& source == seed || self.lowered(before, source)
                        &&& by_another ==> source != location
                    };
                assert(prior.has(source));
            }
        }
        assert forall|location: [usize; D]| #[trigger]
            self.has(location) && location != seed implies {
            &&& self.cell(coords(location@)) == before.cell(coords(location@)) || self.lowered(
                before,
                location,
            )
            &&& self.lowered(before, location) ==> self.stirred(before, seed, reach, location, true)
            &&& denies_nothing(test) && (before.cell(coords(location@)).determined is Some
                || before.cell(coords(location@)).possible.len() >= 2) ==> self.cell(
                coords(location@),
            ) == before.cell(coords(location@))
        } by {
            assert(prior.has(location));
        }
        assert forall|k: int| 0 <= k < rest.len() implies self.has(#[trigger] rest[k])
            && self.stirred(before, seed, reach, rest[k], false) by {
            assert(rest[k] == waiting[k + 1]);
            assert(prior.has(waiting[k + 1]));
        }
        assert forall|location: [usize; D]| #[trigger]
            self.has(location) && self.stirred(before, seed, reach, location, false) implies backed(
            test,
            self,
            location,
            reach,
        ) || rest.contains(location) by {
            assert(prior.has(location));
            if backed(test, prior, location, reach) {
                assert(same_around(prior, self, coords(location@), reach));
                lemma_backed_stays(test, prior, self, location, reach);
            } else if location == looked {
                assert(same_around(prior, self, coords(location@), reach));
                assert(backed(test, self, location, reach));
            } else {
                assert(waiting.contains(location));
                let k = choose|k: int| 0 <= k < waiting.len() && waiting[k] == location;
                assert(k >= 1);
                assert(rest[k - 1] == location);
            }
        }
    }

    /// Every pixel that has taken a value is backed or waits in `queue` to be looked at, but
    /// for those at the locations `exempt`.
    pub open spec fn watched<F: Fn(&Self, [usize; D], &T, u32) -> (bool, u32)>(
        self,
        test: F,
        exempt: Set<[usize; D]>,
        reach: int,
        queue: Seq<[usize; D]>,
    ) -> bool {
        forall|location: [usize; D]| #[trigger]
            self.has(location) ==> {
                ||| exempt.contains(location)
                ||| self.cell(coords(location@)).determined is None
                ||| backed(test, self, location, reach)
                ||| queue.contains(location)
            }
    }

    /// A look that changed the pixel at `changed` and put the cells around it at the end of
    /// the queue leaves every pixel watched.
    proof fn lemma_watch_kept<F: Fn(&Self, [usize; D], &T, u32) -> (bool, u32)>(
        self,
        test: F,
        before: Self,
        changed: [usize; D],
        exempt: Set<[usize; D]>,
        reach: int,
        waiting: Seq<[usize; D]>,
        rest: Seq<[usize; D]>,
        queue: Seq<[usize; D]>,
    )
        requires
            before.wf(),
            self.wf(),
            self.size == before.size,
            before.has(changed),
            reach >= 0,
            self.data@ == before.data@.update(
                offset(before.dims(), coords(changed@)),
                self.data@[offset(before.dims(), coords(changed@))],
            ),
            before.watched(test, exempt, reach, waiting),
            waiting.len() == 0 || (waiting[0] == changed && rest == waiting.skip(1)),
            waiting.len() == 0 ==> rest.len() == 0,
            rest.len() <= queue.len(),
            queue.take(rest.len() as int) == rest,
            forall|other: [usize; D]|
                near(before.dims(), coords(changed@), reach, coords(other@)) ==> queue.contains(
                    other,
                ),
        ensures
            self.watched(test, exempt, reach, queue),
    {
        let dims = before.dims();
        lemma_offset_in_volume(dims, coords(changed@));
        lemma_near_self(dims, coords(changed@), reach);
        assert forall|location: [usize; D]| #[trigger] self.has(location) implies {
            ||| exempt.contains(location)
            ||| self.cell(coords(location@)).determined is None
            ||| backed(test, self, location, reach)
            ||| queue.contains(location)
        } by {
            assert(before.has(location));
            if !near(dims, coords(changed@), reach, coords(location@)) {
                lemma_same_away(before, self, coords(changed@), coords(location@), reach);
                lemma_near_self(dims, coords(location@), reach);
                assert(before.cell(coords(location@)) == self.cell(coords(location@)));
                if backed(test, before, location, reach) {
                    lemma_backed_stays(test, before, self, location, reach);
                } else if waiting.contains(location) {
                    let k = choose|k: int| 0 <= k < waiting.len() && waiting[k] == location;
                    assert(k >= 1);
                    assert(rest[k - 1] == location);
                    assert(queue.take(rest.len() as int)[k - 1] == location);
                    assert(queue[k - 1] == location);
                }
            }
        }
    }

    /// A look at the pixel at `looked` that changed nothing leaves every pixel watched once
    /// `looked` is off the queue.
    proof fn lemma_watch_looked<F: Fn(&Self, [usize; D], &T, u32) -> (bool, u32)>(
        self,
        test: F,
        before: Self,
        looked: [usize; D],
        exempt: Set<[usize; D]>,
        reach: int,
        waiting: Seq<[usize; D]>,
    )
        requires
            before.wf(),
            self.wf(),
            self.size == before.size,
            self.data@ == before.data@,
            before.has(looked),
            reach >= 0,
            before.watched(test, exempt, reach, waiting),
            waiting.len() > 0,
            waiting[0] == looked,
            all_allowed(test, before, looked, before.cell(coords(looked@)).possible),
        ensures
            self.watched(test, exempt, reach, waiting.skip(1)),
    {
        let dims = before.dims();
        let rest = waiting.skip(1);
        assert forall|place: Seq<int>| before.cell(place) == self.cell(place) by {}
        assert forall|location: [usize; D]| #[trigger] self.has(location) implies {
            ||| exempt.contains(location)
            ||| self.cell(coords(location@)).determined is None
            ||| backed(test, self, location, reach)
            ||| rest.contains(location)
        } by {
            assert(before.has(location));
            let pixel = before.cell(coords(location@));
            if backed(test, before, location, reach) {
                lemma_backed_stays(test, before, self, location, reach);
            } else if location == looked {
                assert(same_around(before, self, coords(location@), reach));
                assert(backed(test, self, location, reach));
            } else if waiting.contains(location) {
                let k = choose|k: int| 0 <= k < waiting.len() && waiting[k] == location;
                assert(k >= 1);
                assert(rest[k - 1] == location);
            }
        }
    }

    /// From what the loop of `collapse` keeps true to what `collapse` promises of the cells.
    proof fn lemma_collapsed(
        self,
        before: Self,
        entry: Seq<Pixel<T>>,
        start: Seq<Pixel<T>>,
        seed: Seq<int>,
    )
        requires
            before.data@ == entry,
            before.size == self.size,
            before.wf(),
            within(before.dims(), seed),
            ({
                let spot = offset(before.dims(), seed);
                &&& start == entry.update(spot, start[spot])
                &&& start[spot]@.determined is Some
            }),
            start.len() == entry.len(),
            self.data@.len() == entry.len(),
            forall|i: int| 0 <= i < start.len() ==> eased(start[i]@, (#[trigger] self.data@[i])@),
        ensures
            self.cell(seed) == start[offset(before.dims(), seed)]@,
            forall|location: Seq<int>|
                within(before.dims(), location) && location != seed ==> eased(
                    before.cell(location),
                    #[trigger] self.cell(location),
                ),
    {
        let spot = offset(before.dims(), seed);
        lemma_offset_in_volume(before.dims(), seed);
        assert(eased(start[spot]@, self.data@[spot]@));
        assert forall|location: Seq<int>|
            within(before.dims(), location) && location != seed implies eased(
            before.cell(location),
            #[trigger] self.cell(location),
        ) by {
            lemma_offset_in_volume(before.dims(), location);
            let i = offset(before.dims(), location);
            if i == spot {
                lemma_offset_injective(before.dims(), location, seed);
            }
            assert(eased(start[i]@, self.data@[i]@));
            assert(start[i] == entry[i]);
        }
    }

    /// Checks if the Grid is valid
    ///
    /// Every pixel that has not taken a value is looked at once, front to back, against the
    /// grid as it was on entry. If the constraint leaves one of them without a candidate,
    /// its location is returned and the grid is left as it was.
    pub fn check_validity<F>(&mut self, test: F) -> (checked: Result<(), [usize; D]>) where
        F: Fn(&Self, [usize; D], &T, u32) -> (bool, u32),

        requires
            old(self).wf(),
            is_rule(test),
        ensures
            final(self).wf(),
            final(self).size == old(self).size,
            match checked {
                Ok(()) => forall|location: [usize; D]| #[trigger]
                    old(self).has(location) ==> {
                        &&& !fails(test, *old(self), location)
                        &&& final(self).cell(coords(location@)) == swept(test, *old(self), location)
                        &&& final(self).cell(coords(location@)).possible.len() > 0
                    },
                Err(location) => {
                    &&& *final(self) == *old(self)
                    &&& old(self).has(location)
                    &&& fails(test, *old(self), location)
                    &&& forall|earlier: [usize; D]| #[trigger]
                        old(self).has(earlier) && offset(old(self).dims(), coords(earlier@))
                            < offset(old(self).dims(), coords(location@)) ==> !fails(
                            test,
                            *old(self),
                            earlier,
                        )
                },
            },
            at_rest(test, *old(self)) ==> checked is Ok && *final(self) == *old(self),
            keeps_weight(test) && old(self).weighted() ==> final(self).weighted(),
    {
        let ghost dims = self.dims();
        let total = self.data.len();
        let mut fresh: Vec<Pixel<T>> = Vec::new();
        let mut changed = false;
        let mut index: usize = 0;
        while index < total
            invariant
                index <= total,
                total == self.data@.len(),
                *self == *old(self),
                self.wf(),
                dims == self.dims(),
                is_rule(test),
                fresh@.len() == index,
                forall|i: int|
                    0 <= i < index ==> (#[trigger] fresh@[i])@.wf() && fresh@[i]@.possible.len() > 0,
                keeps_weight(test) && self.weighted() ==> forall|i: int|
                    0 <= i < index ==> (#[trigger] fresh@[i])@.weighted(),
                forall|location: [usize; D]| #[trigger]
                    self.has(location) && 0 <= offset(dims, coords(location@)) < index ==> !fails(
                        test,
                        *self,
                        location,
                    ) && fresh@[offset(dims, coords(location@))]@ == swept(test, *self, location),
                !changed ==> forall|i: int|
                    0 <= i < index ==> (#[trigger] fresh@[i])@ == self.data@[i]@,
                at_rest(test, *self) ==> !changed,
            decreases total - index,
        {
            let mut pixel = self.data[index].clone();
            let location = self.location_of(index);
            let ghost before = pixel@;
            if pixel.determined_value.is_none() {
                let result = pixel.recalc(&*self, location, &test, None);
                proof {
                    lemma_borrowed_rule(test, *self);
                    lemma_recalculated(
                        before,
                        permits(test, *self, location),
                        reweighs(test, *self, location),
                        false,
                        pixel@,
                        result,
                    );
                }
                if result == PixelChangeResult::Invalid {
                    proof {
                        assert forall|earlier: [usize; D]| #[trigger]
                            self.has(earlier) && offset(dims, coords(earlier@)) < offset(
                                dims,
                                coords(location@),
                            ) implies !fails(test, *self, earlier) by {
                            lemma_offset_in_volume(dims, coords(earlier@));
                        }
                        if at_rest(test, *self) {
                            assert(self.has(location));
                        }
                    }
                    return Err(location);
                }
                if result == PixelChangeResult::Updated || !pixel.same_weights(&self.data[index]) {
                    proof {
                        if at_rest(test, *self) {
                            assert(self.has(location));
                        }
                    }
                    changed = true;
                } else {
                    proof {
                        lemma_same_candidates(pixel@.possible, before.possible);
                    }
                }
            }
            proof {
                if at_rest(test, *self) {
                    assert(self.has(location));
                    assert(pixel@ == self.data@[index as int]@);
                }
                assert forall|other: [usize; D]| #[trigger]
                    self.has(other) && 0 <= offset(dims, coords(other@)) < index + 1 implies !fails(
                        test,
                        *self,
                        other,
                    ) && fresh@.push(pixel)[offset(dims, coords(other@))]@ == swept(
                        test,
                        *self,
                        other,
                    ) by {
                    lemma_offset_in_volume(dims, coords(other@));
                    if offset(dims, coords(other@)) == index {
                        lemma_position_of_offset(dims, coords(other@));
                        assert(coords(other@) == coords(location@));
                        assert(other@ =~= location@) by {
                            assert forall|i: int| 0 <= i < D implies other@[i] == location@[i] by {
                                assert(coords(other@)[i] == other@[i]);
                                assert(coords(location@)[i] == location@[i]);
                            }
                        }
                        assert(other == location);
                    }
                }
            }
            fresh.push(pixel);
            index += 1;
        }
        proof {
            assert forall|location: [usize; D]| #[trigger] self.has(location) implies !fails(
                test,
                *self,
                location,
            ) && fresh@[offset(dims, coords(location@))]@ == swept(test, *self, location) by {
                lemma_offset_in_volume(dims, coords(location@));
            }
            assert forall|location: [usize; D]| #[trigger] self.has(location) implies fresh@[offset(
                dims,
                coords(location@),
            )]@.possible.len() > 0 by {
                lemma_offset_in_volume(dims, coords(location@));
            }
            if !changed {
                assert forall|location: [usize; D]| #[trigger] self.has(location) implies self.cell(
                    coords(location@),
                ) == swept(test, *self, location) by {
                    lemma_offset_in_volume(dims, coords(location@));
                    assert(fresh@[offset(dims, coords(location@))]@ == self.data@[offset(
                        dims,
                        coords(location@),
                    )]@);
                }
            }
        }
        if changed {
            self.data = fresh;
        }
        Ok(())
    }
}

} // verus!
