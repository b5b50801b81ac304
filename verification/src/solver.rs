//! The wave-function-collapse loop: pick an open cell, collapse it, take the grid back if
//! that led into a contradiction, and go on until no cell is open.
use vstd::prelude::*;
use rand::rngs::StdRng;
use crate::grid::Grid;
use crate::layout::{
    coords, lemma_offset_in_volume, lemma_offset_injective, lemma_offset_of_position, offset,
    position, within,
};
use crate::pixel::{
    lemma_kept, lemma_subsequence_one, lemma_subsequence_twice, narrowed, values, Pixel, PixelView,
    PossibleValues,
};
use crate::propagate::{eased, lemma_eased_twice, lemma_same_place};
use crate::random::{choose_location, draw_ratio};
use crate::rule::{
    allowed, always_drawable, backed, can_draw, denies, denies_nothing, drawable, fails,
    guarded,
    is_local, is_rule, keeps_weight, lemma_backed_stands, lemma_borrowed_draw,
    lemma_borrowed_guard, lemma_borrowed_rule, lemma_guarded_by_view, lemma_nothing_denied,
    lemma_weighted_draws, permits, reweighs, swept,
};
use crate::unique::{eq_is_identity, lemma_distinct, Unique};

verus! {

/// How often the solver picks its next cell among all open cells, whatever their entropy:
/// `numerator` times out of `denominator`. The other times it picks among the open cells of
/// least entropy.
#[derive(Clone, Copy, Debug)]
pub struct Chance {
    /// How many times out of `denominator`.
    pub numerator: u32,
    /// Out of how many times. Not zero.
    pub denominator: u32,
}

impl Chance {
    /// The ratio is a probability.
    pub open spec fn wf(self) -> bool {
        0 < self.denominator && self.numerator <= self.denominator
    }

    /// `numerator` out of `denominator`, if that is a probability.
    pub fn new(numerator: u32, denominator: u32) -> (chance: Option<Chance>)
        ensures
            chance is Some <==> 0 < denominator && numerator <= denominator,
            chance matches Some(made) ==> made.numerator == numerator && made.denominator
                == denominator,
    {
        if denominator == 0 || numerator > denominator {
            None
        } else {
            Some(Chance { numerator, denominator })
        }
    }

    /// Always pick among the open cells of least entropy.
    pub fn never() -> (chance: Chance)
        ensures
            chance.wf(),
            chance.numerator == 0,
    {
        Chance { numerator: 0, denominator: 1 }
    }

    /// Always pick among all open cells.
    pub fn always() -> (chance: Chance)
        ensures
            chance.wf(),
            chance.numerator == chance.denominator,
    {
        Chance { numerator: 1, denominator: 1 }
    }
}

/// What one round of the solver did.
#[derive(Clone, Copy, Debug)]
pub enum Round<const D: usize> {
    /// No cell was open: nothing was done.
    Finished,
    /// The cell `seed` was collapsed, and what followed from it was carried through.
    Collapsed { seed: [usize; D] },
    /// Collapsing the cell `seed` left the cell `at` without a candidate: the grid was set
    /// back to what it was.
    Contradiction { seed: [usize; D], at: [usize; D] },
}

/// How many of the pixels have not taken a value.
pub open spec fn open_count<T>(cells: Seq<Pixel<T>>) -> nat
    decreases cells.len(),
{
    if cells.len() == 0 {
        0
    } else {
        open_count(cells.drop_last()) + if cells.last()@.determined is None {
            1nat
        } else {
            0nat
        }
    }
}

/// No more pixels are open than there are pixels, and if none is open, each has taken its
/// value.
pub proof fn lemma_open_count<T>(cells: Seq<Pixel<T>>)
    ensures
        open_count(cells) <= cells.len(),
        open_count(cells) == 0 ==> forall|i: int|
            0 <= i < cells.len() ==> (#[trigger] cells[i])@.determined is Some,
    decreases cells.len(),
{
    if cells.len() > 0 {
        lemma_open_count(cells.drop_last());
        if open_count(cells) == 0 {
            assert forall|i: int| 0 <= i < cells.len() implies (#[trigger] cells[i])@.determined is Some by {
                if i < cells.len() - 1 {
                    assert(cells.drop_last()[i] == cells[i]);
                }
            }
        }
    }
}

/// Where what was settled stays settled, no more pixels are open than were.
pub proof fn lemma_open_count_stays<T>(before: Seq<Pixel<T>>, after: Seq<Pixel<T>>, but: int)
    requires
        before.len() == after.len(),
        forall|j: int|
            0 <= j < before.len() && j != but && (#[trigger] before[j])@.determined is Some
                ==> after[j]@.determined is Some,
        !(0 <= but < before.len()),
    ensures
        open_count(after) <= open_count(before),
    decreases before.len(),
{
    if before.len() > 0 {
        assert forall|j: int|
            0 <= j < before.drop_last().len() && j != but && (#[trigger] before.drop_last()[j])@.determined is Some implies after.drop_last()[j]@.determined is Some by {
            assert(before.drop_last()[j] == before[j]);
            assert(after.drop_last()[j] == after[j]);
        }
        lemma_open_count_stays(before.drop_last(), after.drop_last(), but);
        assert(before[before.len() - 1] == before.last());
    }
}

/// Where what was settled stays settled and one open pixel takes its value, fewer pixels
/// are open than were.
pub proof fn lemma_open_count_drops<T>(before: Seq<Pixel<T>>, after: Seq<Pixel<T>>, at: int)
    requires
        before.len() == after.len(),
        0 <= at < before.len(),
        forall|j: int|
            0 <= j < before.len() && j != at && (#[trigger] before[j])@.determined is Some
                ==> after[j]@.determined is Some,
        before[at]@.determined is None,
        after[at]@.determined is Some,
    ensures
        open_count(after) < open_count(before),
    decreases before.len(),
{
    assert forall|j: int|
        0 <= j < before.drop_last().len() && j != at && (#[trigger] before.drop_last()[j])@.determined is Some implies after.drop_last()[j]@.determined is Some by {
        assert(before.drop_last()[j] == before[j]);
        assert(after.drop_last()[j] == after[j]);
    }
    if at == before.len() - 1 {
        lemma_open_count_stays(before.drop_last(), after.drop_last(), at);
    } else {
        assert(before.drop_last()[at] == before[at]);
        assert(after.drop_last()[at] == after[at]);
        lemma_open_count_drops(before.drop_last(), after.drop_last(), at);
        assert(before[before.len() - 1] == before.last());
    }
}

/// The entropy of a pixel: how many different values it may still take.
pub open spec fn entropy<T>(pixel: PixelView<T>) -> nat {
    values(pixel.possible).to_set().len()
}

impl<T: PossibleValues, const D: usize> Grid<T, D> {
    /// The pixel at `location` is open, and no open pixel has less entropy than it.
    pub open spec fn least_open(self, location: [usize; D]) -> bool {
        &&& self.cell(coords(location@)).determined is None
        &&& forall|i: int|
            0 <= i < self.data@.len() && (#[trigger] self.data@[i])@.determined is None ==> entropy(
                self.cell(coords(location@)),
            ) <= entropy(self.data@[i]@)
    }

    /// A copy of the pixels, to set the grid back to.
    fn snapshot(&self) -> (copy: Vec<Pixel<T>>)
        ensures
            copy@.len() == self.data@.len(),
            forall|i: int| 0 <= i < copy@.len() ==> (#[trigger] copy@[i])@ == self.data@[i]@,
    {
        let mut copy: Vec<Pixel<T>> = Vec::new();
        let mut index: usize = 0;
        while index < self.data.len()
            invariant
                index <= self.data@.len(),
                copy@.len() == index,
                forall|i: int| 0 <= i < index ==> (#[trigger] copy@[i])@ == self.data@[i]@,
            decreases self.data@.len() - index,
        {
            copy.push(self.data[index].clone());
            index += 1;
        }
        copy
    }

    /// The cells a round picks its seed from, in the order of the grid: every open cell
    /// where `explore`, else the open cells of least entropy.
    pub fn seed_pool(&self, explore: bool) -> (pool: Vec<[usize; D]>)
        requires
            self.wf(),
        ensures
            forall|k: int|
                0 <= k < pool@.len() ==> {
                    &&& self.has(#[trigger] pool@[k])
                    &&& self.cell(coords(pool@[k]@)).determined is None
                },
            forall|j: int, k: int|
                0 <= j < k < pool@.len() ==> offset(self.dims(), coords((#[trigger] pool@[j])@))
                    < offset(self.dims(), coords((#[trigger] pool@[k])@)),
            pool@.len() == 0 <==> self.complete(),
            explore ==> forall|location: [usize; D]| #[trigger]
                self.has(location) ==> (pool@.contains(location) <==> self.cell(
                    coords(location@),
                ).determined is None),
            eq_is_identity::<T>() && !explore ==> forall|location: [usize; D]| #[trigger]
                self.has(location) ==> (pool@.contains(location) <==> self.least_open(location)),
    {
        let ghost dims = self.dims();
        let total = self.data.len();
        let mut open: Vec<[usize; D]> = Vec::new();
        let mut amounts: Vec<usize> = Vec::new();
        let ghost mut origin: Seq<int> = Seq::empty();
        let ghost mut slot: Seq<int> = Seq::empty();
        let mut index: usize = 0;
        while index < total
            invariant
                index <= total,
                total == self.data@.len(),
                self.wf(),
                dims == self.dims(),
                open@.len() == amounts@.len(),
                open@.len() == origin.len(),
                slot.len() == index,
                forall|k: int|
                    0 <= k < origin.len() ==> {
                        &&& 0 <= #[trigger] origin[k] < index
                        &&& self.has(open@[k])
                        &&& offset(dims, coords(open@[k]@)) == origin[k]
                        &&& self.data@[origin[k]]@.determined is None
                        &&& eq_is_identity::<T>() ==> amounts@[k] == entropy(self.data@[origin[k]]@)
                    },
                forall|j: int, k: int|
                    0 <= j < k < origin.len() ==> #[trigger] origin[j] < #[trigger] origin[k],
                forall|i: int|
                    0 <= i < index && (#[trigger] self.data@[i])@.determined is None ==> 0 <= slot[i]
                        < origin.len() && origin[slot[i]] == i,
            decreases total - index,
        {
            if self.data[index].determined_value.is_none() {
                let location = self.location_of(index);
                let amount = self.data[index].values().unique().len();
                proof {
                    lemma_distinct(values(self.data@[index as int]@.possible));
                    slot = slot.push(origin.len() as int);
                    origin = origin.push(index as int);
                }
                open.push(location);
                amounts.push(amount);
            } else {
                proof {
                    slot = slot.push(-1);
                }
            }
            index += 1;
        }
        if open.len() == 0 {
            proof {
                assert forall|i: int| 0 <= i < self.data@.len() implies (
                #[trigger] self.data@[i])@.determined is Some by {
                    if self.data@[i]@.determined is None {
                        assert(0 <= slot[i] < origin.len());
                    }
                }
                assert forall|location: [usize; D]| #[trigger] self.has(location) implies self.cell(
                    coords(location@),
                ).determined is Some by {
                    lemma_offset_in_volume(dims, coords(location@));
                    assert(self.data@[offset(dims, coords(location@))]@.determined is Some);
                }
            }
            return open;
        }
        proof {
            assert(self.data@[origin[0]]@.determined is None);
        }
        let mut least: usize = amounts[0];
        let ghost mut lowest: int = 0;
        let mut k: usize = 1;
        while k < amounts.len()
            invariant
                1 <= k <= amounts@.len(),
                0 <= lowest < k,
                amounts@[lowest] == least,
                forall|j: int| 0 <= j < k ==> least <= #[trigger] amounts@[j],
            decreases amounts@.len() - k,
        {
            if amounts[k] < least {
                least = amounts[k];
                proof {
                    lowest = k as int;
                }
            }
            k += 1;
        }
        let mut pool: Vec<[usize; D]> = Vec::new();
        let ghost mut source: Seq<int> = Seq::empty();
        let ghost mut place: Seq<int> = Seq::empty();
        let mut k: usize = 0;
        while k < open.len()
            invariant
                k <= open@.len(),
                open@.len() == amounts@.len(),
                0 <= lowest < open@.len(),
                amounts@[lowest] == least,
                source.len() == pool@.len(),
                place.len() == k,
                forall|j: int|
                    0 <= j < source.len() ==> {
                        &&& 0 <= #[trigger] source[j] < k
                        &&& open@[source[j]] == pool@[j]
                        &&& explore || amounts@[source[j]] == least
                    },
                forall|i: int, j: int|
                    0 <= i < j < source.len() ==> #[trigger] source[i] < #[trigger] source[j],
                forall|m: int|
                    0 <= m < k && (explore || amounts@[m] == least) ==> 0 <= #[trigger] place[m]
                        < source.len() && source[place[m]] == m,
            decreases open@.len() - k,
        {
            if explore || amounts[k] == least {
                proof {
                    place = place.push(source.len() as int);
                    source = source.push(k as int);
                }
                pool.push(open[k]);
            } else {
                proof {
                    place = place.push(-1);
                }
            }
            k += 1;
        }
        proof {
            assert(0 <= place[lowest] < source.len());
            assert forall|k: int| 0 <= k < pool@.len() implies {
                &&& self.has(#[trigger] pool@[k])
                &&& self.cell(coords(pool@[k]@)).determined is None
            } by {
                assert(self.has(open@[source[k]]));
                assert(self.data@[origin[source[k]]]@.determined is None);
            }
            assert forall|j: int, k: int| 0 <= j < k < pool@.len() implies offset(
                dims,
                coords((#[trigger] pool@[j])@),
            ) < offset(dims, coords((#[trigger] pool@[k])@)) by {
                assert(source[j] < source[k]);
                assert(origin[source[j]] < origin[source[k]]);
            }
            assert forall|location: [usize; D]| #[trigger]
                self.has(location) && self.cell(coords(location@)).determined is None implies exists|
                n: int,
            |
                0 <= n < open@.len() && open@[n] == location && #[trigger] origin[n] == offset(
                    dims,
                    coords(location@),
                ) by {
                let i = offset(dims, coords(location@));
                lemma_offset_in_volume(dims, coords(location@));
                assert(self.data@[i]@.determined is None);
                let n = slot[i];
                assert(origin[n] == i);
                lemma_offset_injective(dims, coords(open@[n]@), coords(location@));
                lemma_same_place(open@[n], location);
            }
            if explore {
                assert forall|location: [usize; D]| #[trigger]
                    self.has(location) && self.cell(
                        coords(location@),
                    ).determined is None implies pool@.contains(location) by {
                    let n = choose|n: int|
                        0 <= n < open@.len() && open@[n] == location && #[trigger] origin[n]
                            == offset(dims, coords(location@));
                    assert(0 <= place[n] < source.len());
                    assert(pool@[place[n]] == location);
                }
            }
            if eq_is_identity::<T>() && !explore {
                assert forall|location: [usize; D]| #[trigger]
                    self.has(location) implies (pool@.contains(location) <==> self.least_open(
                        location,
                    )) by {
                    if pool@.contains(location) {
                        let j = choose|j: int| 0 <= j < pool@.len() && pool@[j] == location;
                        assert(self.has(pool@[j]));
                        assert(amounts@[source[j]] == least);
                        assert(offset(dims, coords(location@)) == origin[source[j]]);
                        assert forall|i: int|
                            0 <= i < self.data@.len() && (#[trigger] self.data@[i])@.determined is None implies entropy(
                            self.cell(coords(location@)),
                        ) <= entropy(self.data@[i]@) by {
                            let n = slot[i];
                            assert(origin[n] == i);
                            assert(least <= amounts@[n]);
                        }
                    }
                    if self.least_open(location) {
                        let n = choose|n: int|
                            0 <= n < open@.len() && open@[n] == location && #[trigger] origin[n]
                                == offset(dims, coords(location@));
                        assert(self.data@[origin[lowest]]@.determined is None);
                        assert(least <= amounts@[n]);
                        assert(amounts@[n] == least);
                        assert(0 <= place[n] < source.len());
                        assert(pool@[place[n]] == location);
                    }
                }
            }
        }
        pool
    }

    /// One round of the solver. If a cell is open, one open cell is picked at random from
    /// `seed_pool`: among all of them with the probability `chance`, else among those of
    /// least entropy. It is collapsed with `collapse`. If that ends in a contradiction, the
    /// grid is set back to what it was on entry, and `led_to` says what the contradiction
    /// was.
    ///
    /// Whichever cell is picked, a value must be there to be drawn for it: see `can_draw`.
    pub fn wfc_round<F>(
        &mut self,
        test: F,
        effect_distance: usize,
        rng: &mut StdRng,
        chance: Chance,
    ) -> (round: Round<D>) where F: Fn(&Self, [usize; D], &T, u32) -> (bool, u32)
        requires
            old(self).wf(),
            is_rule(test),
            can_draw(test, *old(self)),
            chance.wf(),
        ensures
            final(self).wf(),
            final(self).size == old(self).size,
            keeps_weight(test) && old(self).weighted() ==> final(self).weighted(),
            round is Finished <==> old(self).complete(),
            round is Finished ==> *final(self) == *old(self),
            round matches Round::Contradiction { seed, at } ==> {
                &&& final(self)@ == old(self)@
                &&& old(self).has(seed)
                &&& old(self).has(at)
                &&& old(self).cell(coords(seed@)).determined is None
                &&& eq_is_identity::<T>() && chance.numerator == 0 ==> old(self).least_open(seed)
                &&& exists|reached: Self| #[trigger]
                    old(self).led_to(test, seed, effect_distance as int, at, reached)
            },
            denies_nothing(test) && old(self).stocked() ==> !(round is Contradiction),
            round matches Round::Collapsed { seed } ==> {
                &&& old(self).has(seed)
                &&& old(self).cell(coords(seed@)).determined is None
                &&& eq_is_identity::<T>() && chance.numerator == 0 ==> old(self).least_open(seed)
                &&& exists|candidate: (T, u32)| #[trigger]
                    allowed(
                        test,
                        *old(self),
                        seed,
                        old(self).cell(coords(seed@)).possible,
                    ).contains(candidate) && (allowed(
                        test,
                        *old(self),
                        seed,
                        old(self).cell(coords(seed@)).possible,
                    ).len() >= 2 ==> candidate.1 > 0) && final(self).cell(coords(seed@))
                        == PixelView::of(candidate.0)
                &&& forall|location: Seq<int>|
                    within(old(self).dims(), location) && location != coords(seed@) ==> eased(
                        old(self).cell(location),
                        #[trigger] final(self).cell(location),
                    )
                &&& forall|location: [usize; D]| #[trigger]
                    old(self).has(location) && location != seed ==> {
                        &&& final(self).cell(coords(location@)) != old(self).cell(
                            coords(location@),
                        ) ==> final(self).stirred(
                            *old(self),
                            seed,
                            effect_distance as int,
                            location,
                            true,
                        )
                        &&& denies_nothing(test) && (old(self).cell(
                            coords(location@),
                        ).determined is Some || old(self).cell(coords(location@)).possible.len()
                            >= 2) ==> final(self).cell(coords(location@)) == old(self).cell(
                            coords(location@),
                        )
                    }
                &&& forall|location: [usize; D]| #[trigger]
                    final(self).has(location) && final(self).stirred(
                        *old(self),
                        seed,
                        effect_distance as int,
                        location,
                        false,
                    ) ==> backed(test, *final(self), location, effect_distance as int)
            },
            forall|exempt: Set<[usize; D]>| #[trigger]
                guarded(test, *old(self), exempt, effect_distance as int) ==> guarded(
                    test,
                    *final(self),
                    exempt,
                    effect_distance as int,
                ),
    {
        if self.is_complete() {
            return Round::Finished;
        }
        let backup = self.snapshot();
        let ghost reach = effect_distance as int;
        let explore = draw_ratio(rng, chance.numerator, chance.denominator);
        let pool = self.seed_pool(explore);
        // A cell is open, so the pool is not empty and a cell is picked.
        let seed = match choose_location(&pool, rng) {
            Some(seed) => seed,
            None => {
                return Round::Finished;
            },
        };
        proof {
            let j = choose|j: int| 0 <= j < pool@.len() && pool@[j] == seed;
            assert(self.has(pool@[j]));
        }
        let pixel = self.get_item(seed);
        proof {
            let list = self.cell(coords(seed@)).possible;
            if allowed(test, *self, seed, list).len() >= 2 {
                if !always_drawable(test) {
                    lemma_offset_in_volume(self.dims(), coords(seed@));
                    assert(self.data@[offset(self.dims(), coords(seed@))]@.weighted());
                    lemma_weighted_draws(test, *self, seed, list);
                }
                assert(drawable(test, *self, seed, list));
            }
            lemma_borrowed_draw(test, *self, seed, list);
            lemma_borrowed_rule(test, *self);
            assert forall|exempt: Set<[usize; D]>| #[trigger]
                guarded(test, *self, exempt, reach) implies guarded(&test, *self, exempt, reach) by {
                lemma_borrowed_guard(test, *self, exempt, reach);
            }
        }
        match self.collapse(&test, effect_distance, rng, (seed, pixel)) {
            Ok(()) => {
                proof {
                    lemma_offset_in_volume(self.dims(), coords(seed@));
                    let kept = allowed(
                        test,
                        *old(self),
                        seed,
                        old(self).cell(coords(seed@)).possible,
                    );
                    assert(kept == allowed(&test, *old(self), seed, pixel@.possible));
                    assert(kept.len() > 0);
                    assert(exists|candidate: (T, u32)| #[trigger]
                        kept.contains(candidate) && (kept.len() >= 2 ==> candidate.1 > 0)
                            && self.cell(coords(seed@)) == PixelView::of(candidate.0));
                    assert forall|exempt: Set<[usize; D]>| #[trigger]
                        guarded(test, *old(self), exempt, reach) implies guarded(
                        test,
                        *self,
                        exempt,
                        reach,
                    ) by {
                        assert(guarded(&test, *old(self), exempt, reach));
                        lemma_borrowed_guard(test, *self, exempt, reach);
                    }
                    lemma_borrowed_guard(test, *self, Set::empty(), reach);
                }
                Round::Collapsed { seed }
            },
            Err(at) => {
                let ghost reached = *self;
                proof {
                    let list = old(self).cell(coords(seed@)).possible;
                    let left = reached.cell(coords(at@)).possible;
                    lemma_borrowed_draw(test, *old(self), seed, list);
                    lemma_borrowed_draw(test, reached, at, left);
                    assert(old(self).led_to(test, seed, reach, at, reached));
                    if denies_nothing(test) && old(self).stocked() {
                        lemma_nothing_denied(test, *old(self), seed, list);
                        lemma_nothing_denied(test, reached, at, left);
                        assert(old(self).cell(coords(seed@)).possible.len() > 0);
                        assert(old(self).cell(coords(at@)).possible.len() > 0);
                        assert(reached.cell(coords(at@)).possible.len() > 0);
                        assert(false);
                    }
                }
                self.data = backup;
                proof {
                    assert(self@.cells =~= old(self)@.cells);
                    if old(self).weighted() {
                        assert forall|i: int| 0 <= i < self.data@.len() implies (
                        #[trigger] self.data@[i])@.weighted() by {
                            assert(self@.cells[i] == old(self)@.cells[i]);
                            assert(old(self).data@[i]@.weighted());
                        }
                    }
                    assert forall|exempt: Set<[usize; D]>| #[trigger]
                        guarded(test, *old(self), exempt, reach) implies guarded(
                        test,
                        *self,
                        exempt,
                        reach,
                    ) by {
                        lemma_guarded_by_view(test, *old(self), *self, exempt, reach);
                    }
                }
                Round::Contradiction { seed, at }
            },
        }
    }

    /// Collapsing the cell `seed` of this grid, with what follows carried through to the
    /// cells within `reach`, can lead to the grid `reached` and there leave the cell `at`
    /// without a candidate. Either the constraint says no to every candidate of the seed,
    /// and nothing was changed. Or the seed has taken the value of a candidate that the
    /// constraint does not say no to, of one with a weight above zero if there are several;
    /// every cell is in `reached` as it is here or narrowed, and no cell lost its last
    /// candidate; a cell other than the seed that changed lies within `reach` of the seed or
    /// of another cell that changed; so does `at`, unless it is the seed; and the constraint
    /// says no to every candidate of `at` in `reached`.
    pub open spec fn led_to<F: Fn(&Self, [usize; D], &T, u32) -> (bool, u32)>(
        self,
        test: F,
        seed: [usize; D],
        reach: int,
        at: [usize; D],
        reached: Self,
    ) -> bool {
        let kept = allowed(test, self, seed, self.cell(coords(seed@)).possible);
        &&& reached.wf()
        &&& reached.size == self.size
        &&& if kept.len() == 0 {
            at == seed && reached == self
        } else {
            &&& exists|candidate: (T, u32)| #[trigger]
                kept.contains(candidate) && (kept.len() >= 2 ==> candidate.1 > 0) && reached.cell(
                    coords(seed@),
                ) == PixelView::of(candidate.0)
            &&& forall|location: Seq<int>|
                within(self.dims(), location) ==> eased(
                    self.cell(location),
                    #[trigger] reached.cell(location),
                )
            &&& forall|location: Seq<int>|
                within(self.dims(), location) && self.cell(location).possible.len() > 0 ==> (
                #[trigger] reached.cell(location)).possible.len() > 0
            &&& forall|location: [usize; D]| #[trigger]
                self.has(location) && location != seed && reached.cell(coords(location@))
                    != self.cell(coords(location@)) ==> reached.stirred(
                    self,
                    seed,
                    reach,
                    location,
                    true,
                )
            &&& at == seed || reached.stirred(self, seed, reach, at, false)
            &&& allowed(test, reached, at, reached.cell(coords(at@)).possible).len() == 0
        }
    }

    /// The check settles every pixel: none is left open.
    pub open spec fn settles_by_check<F: Fn(&Self, [usize; D], &T, u32) -> (bool, u32)>(
        self,
        test: F,
    ) -> bool {
        forall|location: [usize; D]| #[trigger]
            self.has(location) ==> swept(test, self, location).determined is Some
    }

    /// The cells whose pixels have taken their value once the grid has been checked.
    pub open spec fn settled_by_check<F: Fn(&Self, [usize; D], &T, u32) -> (bool, u32)>(
        self,
        test: F,
    ) -> Set<[usize; D]> {
        Set::new(
            |location: [usize; D]|
                self.has(location) && swept(test, self, location).determined is Some,
        )
    }

    /// A pixel that the check of `before` under `test` leaves open has taken its value in
    /// this grid.
    pub open spec fn settled_past_check<F: Fn(&Self, [usize; D], &T, u32) -> (bool, u32)>(
        self,
        test: F,
        before: Self,
    ) -> bool {
        exists|location: [usize; D]|
            {
                &&& #[trigger] before.has(location)
                &&& swept(test, before, location).determined is None
                &&& self.cell(coords(location@)).determined is Some
            }
    }

    /// Collapsing an open cell of this grid as the check under `test` leaves it, with what
    /// follows carried through to the cells within `reach`, can end in a contradiction.
    pub open spec fn stuck_after_check<F: Fn(&Self, [usize; D], &T, u32) -> (bool, u32)>(
        self,
        test: F,
        reach: int,
    ) -> bool {
        exists|from: Self, seed: [usize; D], at: [usize; D], reached: Self|
            {
                &&& from.wf()
                &&& from.size == self.size
                &&& forall|location: [usize; D]| #[trigger]
                    self.has(location) ==> from.cell(coords(location@)) == swept(
                        test,
                        self,
                        location,
                    )
                &&& from.has(seed)
                &&& from.cell(coords(seed@)).determined is None
                &&& #[trigger] from.led_to(test, seed, reach, at, reached)
            }
    }

    /// Performs the wave-function-collapse algorithm on the Grid.
    ///
    /// The grid is first checked with `check_validity`; if that fails, its location is
    /// returned and the grid is left as it was. Then rounds are made with `wfc_round` until
    /// no cell is open or `rounds` rounds have been made, and `on_update` is shown the grid
    /// after each of them. A round that ends in a contradiction takes the grid back, and the
    /// next round picks anew. Returns whether every pixel has taken its value.
    ///
    /// Whichever cell a round picks, a value must be there to be drawn for it: see
    /// `can_draw`. Under a constraint that says no to nothing, as many rounds as the grid has
    /// cells solve a grid in which every pixel has a candidate. Where the check leaves a cell
    /// open and a round is made, a cell that was open takes its value, or a round ended in a
    /// contradiction on the grid as the check left it; where no such cell took its value, the
    /// grid is as the check left it.
    ///
    /// The chance parameter determines the likelyhood of a random collapse happening anywhere on the
    /// grid. In some strict environments, this can cause unsolvable grids.
    pub fn wfc<F, G>(
        &mut self,
        test: F,
        effect_distance: usize,
        rng: &mut StdRng,
        chance: Chance,
        on_update: G,
        rounds: usize,
    ) -> (solved: Result<bool, [usize; D]>) where
        F: Fn(&Self, [usize; D], &T, u32) -> (bool, u32),
        G: Fn(&Self),

        requires
            old(self).wf(),
            is_rule(test),
            can_draw(test, *old(self)),
            chance.wf(),
            forall|grid: &Self| grid.wf() ==> #[trigger] call_requires(on_update, (grid,)),
        ensures
            final(self).wf(),
            final(self).size == old(self).size,
            keeps_weight(test) && old(self).weighted() ==> final(self).weighted(),
            match solved {
                Ok(done) => {
                    &&& done == final(self).complete()
                    &&& forall|location: [usize; D]| #[trigger]
                        old(self).has(location) ==> !fails(test, *old(self), location)
                    &&& forall|location: [usize; D]| #[trigger]
                        old(self).has(location) ==> eased(
                            swept(test, *old(self), location),
                            final(self).cell(coords(location@)),
                        )
                    &&& forall|location: Seq<int>|
                        within(old(self).dims(), location) ==> {
                            &&& eased(old(self).cell(location), #[trigger] final(self).cell(location))
                            &&& final(self).cell(location).possible.len() > 0
                        }
                    &&& guarded(
                        test,
                        *final(self),
                        old(self).settled_by_check(test),
                        effect_distance as int,
                    )
                },
                Err(location) => {
                    &&& *final(self) == *old(self)
                    &&& old(self).has(location)
                    &&& fails(test, *old(self), location)
                    &&& forall|earlier: [usize; D]| #[trigger]
                        old(self).has(earlier) && offset(old(self).dims(), coords(earlier@))
                            < offset(old(self).dims(), coords(location@)) ==> !fails(
                            test,
                            *old(self),
                            earlier,
                        )
                },
            },
            old(self).complete() ==> solved == Ok::<bool, [usize; D]>(true) && final(self)@ == old(
                self,
            )@,
            old(self).settles_by_check(test) ==> {
                &&& solved == Ok::<bool, [usize; D]>(true)
                &&& forall|location: [usize; D]| #[trigger]
                    old(self).has(location) ==> final(self).cell(coords(location@)) == swept(
                        test,
                        *old(self),
                        location,
                    )
            },
            denies_nothing(test) && old(self).stocked() && rounds >= old(self).data@.len()
                ==> solved == Ok::<bool, [usize; D]>(true),
            solved is Ok && rounds > 0 && !old(self).settles_by_check(test) ==> {
                ||| final(self).settled_past_check(test, *old(self))
                ||| old(self).stuck_after_check(test, effect_distance as int)
            },
            solved is Ok && !final(self).settled_past_check(test, *old(self)) ==> forall|
                location: [usize; D],
            | #[trigger]
                old(self).has(location) ==> final(self).cell(coords(location@)) == swept(
                    test,
                    *old(self),
                    location,
                ),
            solved is Ok && is_local(test, effect_distance as int) ==> forall|location: [usize; D]| #[trigger]
                old(self).has(location) && swept(test, *old(self), location).determined is None
                    && final(self).cell(coords(location@)).determined is Some ==> !denies(
                    test,
                    *final(self),
                    location,
                    (final(self).cell(coords(location@)).determined->0, 1u32),
                ),
    {
        let ghost dims = self.dims();
        let ghost reach = effect_distance as int;
        let ghost exempt = self.settled_by_check(test);
        let ghost all_settled = self.settles_by_check(test);
        let ghost calm = denies_nothing(test) && self.stocked() && rounds >= self.data@.len();
        let total = self.data.len();
        proof {
            lemma_borrowed_rule(test, *self);
        }
        if let Err(location) = self.check_validity(&test) {
            proof {
                lemma_offset_in_volume(dims, coords(location@));
                if calm {
                    lemma_nothing_denied(
                        test,
                        *self,
                        location,
                        self.cell(coords(location@)).possible,
                    );
                }
                if all_settled {
                    assert(swept(test, *self, location).determined is Some);
                }
            }
            return Err(location);
        }
        let ghost mid = *self;
        proof {
            assert forall|location: Seq<int>| within(dims, location) implies {
                &&& eased(old(self).cell(location), #[trigger] self.cell(location))
                &&& self.cell(location).possible.len() > 0
            } by {
                self.lemma_swept_eases(*old(self), test, location);
            }
            if old(self).complete() {
                assert forall|location: Seq<int>| within(dims, location) implies self.cell(location)
                    == old(self).cell(location) by {
                    self.lemma_swept_eases(*old(self), test, location);
                    lemma_offset_in_volume(dims, location);
                }
                self.lemma_same_cells(*old(self));
            }
            assert(guarded(test, *self, exempt, reach)) by {
                assert forall|location: [usize; D]| #[trigger] self.has(location) implies {
                    ||| exempt.contains(location)
                    ||| self.cell(coords(location@)).determined is None
                } by {
                    assert(old(self).has(location));
                }
            }
            lemma_open_count(self.data@);
            if all_settled {
                assert forall|i: int| 0 <= i < self.data@.len() implies (#[trigger] self.data@[i])@.determined is Some by {
                    lemma_offset_of_position(dims, i);
                    let place = old(self).lemma_place(position(dims, i));
                    assert(old(self).has(place));
                    assert(swept(test, *old(self), place).determined is Some);
                    assert(self.cell(coords(place@)) == swept(test, *old(self), place));
                }
            }
        }
        let ghost mut moved = false;
        let ghost mut stuck = false;
        let mut left: usize = rounds;
        while left > 0
            invariant
                left <= rounds,
                moved ==> self.settled_past_check(test, *old(self)),
                !moved ==> forall|location: Seq<int>|
                    within(dims, location) ==> #[trigger] self.cell(location) == mid.cell(location),
                !moved ==> !self.settled_past_check(test, *old(self)),
                stuck ==> old(self).stuck_after_check(test, reach),
                left < rounds ==> moved || stuck,
                self.wf(),
                mid.wf(),
                old(self).wf(),
                self.size == old(self).size,
                mid.size == old(self).size,
                dims == self.dims(),
                reach == effect_distance,
                total == self.data@.len(),
                exempt == old(self).settled_by_check(test),
                all_settled == old(self).settles_by_check(test),
                is_rule(test),
                can_draw(test, *self),
                keeps_weight(test) && old(self).weighted() ==> self.weighted(),
                chance.wf(),
                forall|grid: &Self| grid.wf() ==> #[trigger] call_requires(on_update, (grid,)),
                forall|location: [usize; D]| #[trigger]
                    old(self).has(location) ==> mid.cell(coords(location@)) == swept(
                        test,
                        *old(self),
                        location,
                    ),
                forall|location: Seq<int>|
                    within(dims, location) ==> {
                        &&& eased(old(self).cell(location), #[trigger] mid.cell(location))
                        &&& mid.cell(location).possible.len() > 0
                    },
                forall|location: Seq<int>|
                    within(dims, location) ==> {
                        &&& eased(mid.cell(location), #[trigger] self.cell(location))
                        &&& self.cell(location).possible.len() > 0
                    },
                forall|location: [usize; D]| #[trigger]
                    old(self).has(location) ==> !fails(test, *old(self), location),
                old(self).complete() ==> self@ == old(self)@ && self.complete(),
                all_settled ==> self.complete() && forall|location: Seq<int>|
                    within(dims, location) ==> #[trigger] self.cell(location) == mid.cell(location),
                guarded(test, *self, exempt, reach),
                calm ==> denies_nothing(test) && open_count(self.data@) <= left,
            decreases left,
        {
            let ghost before = *self;
            proof {
                lemma_borrowed_guard(test, *self, exempt, reach);
                assert(can_draw(&test, *self)) by {
                    if always_drawable(test) {
                        assert forall|grid: &Self, location: [usize; D]|
                            grid.wf() && grid.has(location) && allowed(
                                &test,
                                *grid,
                                location,
                                grid.cell(coords(location@)).possible,
                            ).len() >= 2 implies #[trigger] drawable(
                            &test,
                            *grid,
                            location,
                            grid.cell(coords(location@)).possible,
                        ) by {
                            lemma_borrowed_draw(
                                test,
                                *grid,
                                location,
                                grid.cell(coords(location@)).possible,
                            );
                            assert(drawable(
                                test,
                                *grid,
                                location,
                                grid.cell(coords(location@)).possible,
                            ));
                        }
                    }
                }
            }
            let round = self.wfc_round(&test, effect_distance, rng, chance);
            proof {
                lemma_borrowed_guard(test, *self, exempt, reach);
                assert forall|location: Seq<int>| within(dims, location) implies {
                    &&& eased(mid.cell(location), #[trigger] self.cell(location))
                    &&& self.cell(location).possible.len() > 0
                } by {
                    assert(eased(mid.cell(location), before.cell(location)));
                    lemma_offset_in_volume(dims, location);
                    match round {
                        Round::Collapsed { seed } => {
                            if location == coords(seed@) {
                                lemma_borrowed_draw(
                                    test,
                                    before,
                                    seed,
                                    before.cell(location).possible,
                                );
                                self.lemma_seed_eased(before, test, seed);
                            }
                            assert(eased(before.cell(location), self.cell(location)));
                            lemma_eased_twice(
                                mid.cell(location),
                                before.cell(location),
                                self.cell(location),
                            );
                        },
                        Round::Contradiction { .. } => {
                            assert(self@.cells[offset(dims, location)] == before@.cells[offset(
                                dims,
                                location,
                            )]);
                        },
                        Round::Finished => {
                            assert(self.cell(location) == before.cell(location));
                        },
                    }
                }
                if calm {
                    assert(before.stocked());
                    match round {
                        Round::Collapsed { seed } => {
                            self.lemma_round_settles(before, seed);
                        },
                        _ => {},
                    }
                }
                match round {
                    Round::Collapsed { seed } => {
                        self.lemma_round_moves(test, *old(self), mid, before, seed, moved);
                        moved = true;
                    },
                    Round::Contradiction { seed, at } => {
                        self.lemma_round_stays(test, *old(self), mid, before, moved);
                        if !moved {
                            let reached = choose|reached: Self| #[trigger]
                                before.led_to(&test, seed, reach, at, reached);
                            lemma_borrowed_draw(
                                test,
                                before,
                                seed,
                                before.cell(coords(seed@)).possible,
                            );
                            lemma_borrowed_draw(
                                test,
                                reached,
                                at,
                                reached.cell(coords(at@)).possible,
                            );
                            assert(before.led_to(test, seed, reach, at, reached));
                            assert forall|location: [usize; D]| #[trigger]
                                old(self).has(location) implies before.cell(coords(location@))
                                == swept(test, *old(self), location) by {
                                assert(before.cell(coords(location@)) == mid.cell(
                                    coords(location@),
                                ));
                            }
                            assert(old(self).stuck_after_check(test, reach));
                            stuck = true;
                        }
                    },
                    Round::Finished => {
                        self.lemma_round_stays(test, *old(self), mid, before, moved);
                    },
                }
            }
            match round {
                Round::Finished => {
                    proof {
                        if !moved {
                            self.lemma_none_open(test, *old(self), mid);
                        }
                        self.lemma_guarded_stands(test, *old(self), reach);
                        self.lemma_eased_from(*old(self), mid);
                        assert forall|location: [usize; D]| #[trigger]
                            old(self).has(location) implies eased(
                            swept(test, *old(self), location),
                            self.cell(coords(location@)),
                        ) && (all_settled ==> self.cell(coords(location@)) == swept(
                            test,
                            *old(self),
                            location,
                        )) by {
                            assert(mid.cell(coords(location@)) == swept(test, *old(self), location));
                            assert(eased(mid.cell(coords(location@)), self.cell(coords(location@))));
                        }
                    }
                    return Ok(true);
                },
                _ => {},
            }
            on_update(&*self);
            left -= 1;
        }
        let done = self.is_complete();
        proof {
            self.lemma_guarded_stands(test, *old(self), reach);
            self.lemma_eased_from(*old(self), mid);
            lemma_open_count(self.data@);
        }
        Ok(done)
    }

    /// A round that settles the open cell `seed` of `before` leaves settled a cell that the
    /// check left open.
    proof fn lemma_round_moves<F: Fn(&Self, [usize; D], &T, u32) -> (bool, u32)>(
        self,
        test: F,
        first: Self,
        mid: Self,
        before: Self,
        seed: [usize; D],
        moved: bool,
    )
        requires
            first.wf(),
            self.size == first.size,
            before.size == first.size,
            mid.size == first.size,
            first.has(seed),
            before.cell(coords(seed@)).determined is None,
            self.cell(coords(seed@)).determined is Some,
            forall|location: Seq<int>|
                within(first.dims(), location) && location != coords(seed@) ==> eased(
                    before.cell(location),
                    #[trigger] self.cell(location),
                ),
            forall|location: [usize; D]| #[trigger]
                first.has(location) ==> mid.cell(coords(location@)) == swept(test, first, location),
            moved ==> before.settled_past_check(test, first),
            !moved ==> forall|location: Seq<int>|
                within(first.dims(), location) ==> #[trigger] before.cell(location) == mid.cell(
                    location,
                ),
        ensures
            self.settled_past_check(test, first),
    {
        if moved {
            let location = choose|location: [usize; D]|
                {
                    &&& #[trigger] first.has(location)
                    &&& swept(test, first, location).determined is None
                    &&& before.cell(coords(location@)).determined is Some
                };
            if location != seed {
                if coords(location@) == coords(seed@) {
                    lemma_same_place(location, seed);
                }
                assert(eased(before.cell(coords(location@)), self.cell(coords(location@))));
            }
            assert(self.cell(coords(location@)).determined is Some);
        } else {
            assert(before.cell(coords(seed@)) == mid.cell(coords(seed@)));
            assert(swept(test, first, seed).determined is None);
        }
    }

    /// A round that leaves every cell as it was leaves settled what was settled, and
    /// nothing else.
    proof fn lemma_round_stays<F: Fn(&Self, [usize; D], &T, u32) -> (bool, u32)>(
        self,
        test: F,
        first: Self,
        mid: Self,
        before: Self,
        moved: bool,
    )
        requires
            first.wf(),
            before.wf(),
            self.wf(),
            self.size == first.size,
            before.size == first.size,
            self@ == before@,
            moved ==> before.settled_past_check(test, first),
            !moved ==> !before.settled_past_check(test, first),
            !moved ==> forall|location: Seq<int>|
                within(first.dims(), location) ==> #[trigger] before.cell(location) == mid.cell(
                    location,
                ),
        ensures
            moved ==> self.settled_past_check(test, first),
            !moved ==> !self.settled_past_check(test, first),
            !moved ==> forall|location: Seq<int>|
                within(first.dims(), location) ==> #[trigger] self.cell(location) == mid.cell(
                    location,
                ),
    {
        assert forall|location: Seq<int>| within(first.dims(), location) implies self.cell(location)
            == before.cell(location) by {
            let i = offset(first.dims(), location);
            lemma_offset_in_volume(first.dims(), location);
            assert(self.dims() == first.dims() && before.dims() == first.dims());
            assert(0 <= i < self.data@.len() && 0 <= i < before.data@.len());
            assert(self@.cells[i] == self.data@[i]@);
            assert(before@.cells[i] == before.data@[i]@);
        }
        if moved {
            let location = choose|location: [usize; D]|
                {
                    &&& #[trigger] first.has(location)
                    &&& swept(test, first, location).determined is None
                    &&& before.cell(coords(location@)).determined is Some
                };
            assert(self.cell(coords(location@)) == before.cell(coords(location@)));
        } else {
            if self.settled_past_check(test, first) {
                let location = choose|location: [usize; D]|
                    {
                        &&& #[trigger] first.has(location)
                        &&& swept(test, first, location).determined is None
                        &&& self.cell(coords(location@)).determined is Some
                    };
                assert(self.cell(coords(location@)) == before.cell(coords(location@)));
            }
        }
    }

    /// Where no cell is open in a grid that is as the check left it, the check settles
    /// every pixel.
    proof fn lemma_none_open<F: Fn(&Self, [usize; D], &T, u32) -> (bool, u32)>(
        self,
        test: F,
        first: Self,
        mid: Self,
    )
        requires
            first.wf(),
            self.wf(),
            self.size == first.size,
            self.complete(),
            forall|location: [usize; D]| #[trigger]
                first.has(location) ==> mid.cell(coords(location@)) == swept(test, first, location),
            forall|location: Seq<int>|
                within(first.dims(), location) ==> #[trigger] self.cell(location) == mid.cell(
                    location,
                ),
        ensures
            first.settles_by_check(test),
    {
        assert forall|location: [usize; D]| #[trigger] first.has(location) implies swept(
            test,
            first,
            location,
        ).determined is Some by {
            lemma_offset_in_volume(first.dims(), coords(location@));
            assert(self.cell(coords(location@)) == mid.cell(coords(location@)));
            assert(self.data@[offset(first.dims(), coords(location@))]@.determined is Some);
        }
    }

    /// What was eased into `between` and from there into this grid was eased into this grid.
    proof fn lemma_eased_from(self, before: Self, between: Self)
        requires
            self.size == before.size,
            between.size == before.size,
            forall|location: Seq<int>|
                within(before.dims(), location) ==> eased(
                    before.cell(location),
                    #[trigger] between.cell(location),
                ),
            forall|location: Seq<int>|
                within(before.dims(), location) ==> eased(
                    between.cell(location),
                    #[trigger] self.cell(location),
                ),
        ensures
            forall|location: Seq<int>|
                within(before.dims(), location) ==> eased(
                    before.cell(location),
                    #[trigger] self.cell(location),
                ),
    {
        assert forall|location: Seq<int>| within(before.dims(), location) implies eased(
            before.cell(location),
            #[trigger] self.cell(location),
        ) by {
            assert(eased(before.cell(location), between.cell(location)));
            lemma_eased_twice(
                before.cell(location),
                between.cell(location),
                self.cell(location),
            );
        }
    }

    /// A round that settles an open cell and leaves settled what was settled leaves fewer
    /// cells open.
    proof fn lemma_round_settles(self, before: Self, seed: [usize; D])
        requires
            self.wf(),
            before.wf(),
            self.size == before.size,
            before.has(seed),
            before.cell(coords(seed@)).determined is None,
            self.cell(coords(seed@)).determined is Some,
            forall|location: Seq<int>|
                within(before.dims(), location) && location != coords(seed@) ==> eased(
                    before.cell(location),
                    #[trigger] self.cell(location),
                ),
        ensures
            open_count(self.data@) < open_count(before.data@),
    {
        let dims = before.dims();
        let at = offset(dims, coords(seed@));
        lemma_offset_in_volume(dims, coords(seed@));
        assert forall|j: int|
            0 <= j < before.data@.len() && j != at && (#[trigger] before.data@[j])@.determined is Some implies self.data@[j]@.determined is Some by {
            lemma_offset_of_position(dims, j);
            let location = position(dims, j);
            assert(eased(before.cell(location), self.cell(location)));
        }
        lemma_open_count_drops(before.data@, self.data@, at);
    }

    /// In a grid that is guarded but for the cells that the check settled, a constraint that
    /// looks no further than `reach` cells cannot say no to a value that was settled later.
    proof fn lemma_guarded_stands<F: Fn(&Self, [usize; D], &T, u32) -> (bool, u32)>(
        self,
        test: F,
        before: Self,
        reach: int,
    )
        requires
            self.wf(),
            self.size == before.size,
            guarded(test, self, before.settled_by_check(test), reach),
        ensures
            is_local(test, reach) ==> forall|location: [usize; D]| #[trigger]
                before.has(location) && swept(test, before, location).determined is None
                    && self.cell(coords(location@)).determined is Some ==> !denies(
                    test,
                    self,
                    location,
                    (self.cell(coords(location@)).determined->0, 1u32),
                ),
    {
        if is_local(test, reach) {
            assert forall|location: [usize; D]| #[trigger]
                before.has(location) && swept(test, before, location).determined is None
                    && self.cell(coords(location@)).determined is Some implies !denies(
                test,
                self,
                location,
                (self.cell(coords(location@)).determined->0, 1u32),
            ) by {
                assert(self.has(location));
                assert(!before.settled_by_check(test).contains(location));
                lemma_backed_stands(test, self, location, reach);
                lemma_offset_in_volume(self.dims(), coords(location@));
                let pixel = self.data@[offset(self.dims(), coords(location@))]@;
                assert(pixel.wf());
                assert(pixel.possible[0] == (pixel.determined->0, 1u32));
                assert(pixel.possible.contains((pixel.determined->0, 1u32)));
            }
        }
    }

    /// A pixel that took one of the candidates that were allowed to it was narrowed.
    proof fn lemma_seed_eased<F: Fn(&Self, [usize; D], &T, u32) -> (bool, u32)>(
        self,
        before: Self,
        test: F,
        seed: [usize; D],
    )
        requires
            before.wf(),
            before.has(seed),
            before.cell(coords(seed@)).determined is None,
            exists|candidate: (T, u32)| #[trigger]
                allowed(test, before, seed, before.cell(coords(seed@)).possible).contains(
                    candidate,
                ) && self.cell(coords(seed@)) == PixelView::of(candidate.0),
        ensures
            narrowed(before.cell(coords(seed@)), self.cell(coords(seed@))),
    {
        let pixel = before.cell(coords(seed@));
        let kept = allowed(test, before, seed, pixel.possible);
        let picked = choose|candidate: (T, u32)| #[trigger]
            kept.contains(candidate) && self.cell(coords(seed@)) == PixelView::of(candidate.0);
        lemma_kept(pixel.possible, permits(test, before, seed), reweighs(test, before, seed));
        let k = choose|k: int| 0 <= k < kept.len() && kept[k] == picked;
        assert(values(kept)[k] == picked.0);
        assert(values(kept).contains(picked.0));
        let after = self.cell(coords(seed@));
        assert(values(after.possible) =~= seq![values(kept)[k]]);
        lemma_subsequence_one(values(kept), k);
        lemma_subsequence_twice(values(after.possible), values(kept), values(pixel.possible));
        assert forall|value: T| values(after.possible).contains(value) implies values(
            pixel.possible,
        ).contains(value) by {
            let i = choose|i: int|
                0 <= i < values(after.possible).len() && values(after.possible)[i] == value;
            assert(value == picked.0);
        }
    }

    /// One look at a pixel that did not fail left it as it was, or narrowed it.
    proof fn lemma_swept_eases<F: Fn(&Self, [usize; D], &T, u32) -> (bool, u32)>(
        self,
        before: Self,
        test: F,
        location: Seq<int>,
    )
        requires
            before.wf(),
            self.size == before.size,
            self.data@.len() == before.data@.len(),
            within(before.dims(), location),
            forall|place: [usize; D]| #[trigger]
                before.has(place) ==> !fails(test, before, place) && self.cell(coords(place@))
                    == swept(test, before, place),
        ensures
            eased(before.cell(location), self.cell(location)),
            self.cell(location).possible.len() > 0,
            before.cell(location).determined is Some ==> self.cell(location) == before.cell(
                location,
            ),
    {
        lemma_offset_in_volume(before.dims(), location);
        let place = before.lemma_place(location);
        let pixel = before.cell(location);
        lemma_kept(pixel.possible, permits(test, before, place), reweighs(test, before, place));
        let kept = allowed(test, before, place, pixel.possible);
        assert(before.data@[offset(before.dims(), location)]@.wf());
        if pixel.determined is None {
            if kept.len() == 1 {
                assert(values(kept)[0] == kept[0].0);
                assert(values(kept).contains(kept[0].0));
                let after = self.cell(location);
                assert(values(after.possible) =~= values(kept));
                assert forall|value: T| values(after.possible).contains(value) implies values(
                    pixel.possible,
                ).contains(value) by {
                    let i = choose|i: int|
                        0 <= i < values(after.possible).len() && values(after.possible)[i] == value;
                    assert(value == kept[0].0);
                }
            }
        }
    }
}

} // verus!
