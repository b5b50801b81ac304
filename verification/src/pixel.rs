//! One cell of a grid: the values it may still take, each with its weight, and the value it
//! has taken.
use vstd::prelude::*;
use rand::rngs::StdRng;
use crate::grid::Grid;
use crate::random::choose_weighted_value;
use crate::rule::{
    allowed, allows, answered, denies, drawable, is_rule, keeps_weight, lemma_answer, permits,
    reweighs, says, weighs, weighty,
};
use crate::unique::eq_is_identity;

verus! {

/// What `Pixel::recalc` did to a pixel.
#[derive(Clone, Copy, PartialEq, Eq, Debug, Structural)]
pub enum PixelChangeResult {
    /// No candidate was dropped and no value was taken.
    Unchanged,
    /// The pixel lost a candidate, or took its value.
    Updated,
    /// No candidate is left: the pixel must be thrown away.
    Invalid,
}

/// This trait needs to be implemented for all types used in microwfc to allow microwfc to know the superposition.
/// A value *can* be added multiple times.
///
/// Each value comes with its weight: how likely it is to be picked, next to the others.
pub trait PossibleValues: Sized + Copy + Eq {
    fn get_possible_values() -> Vec<(Self, u32)>;
}

/// `candidates` is a list that `T::get_possible_values` returns.
pub open spec fn is_universe<T: PossibleValues>(candidates: Seq<(T, u32)>) -> bool {
    exists|listed: Vec<(T, u32)>| #[trigger]
        call_ensures(T::get_possible_values, (), listed) && listed@ == candidates
}

/// This struct represents a n-dimensional "pixel".
pub struct Pixel<T> {
    /// The values the pixel may still take, in order, each with its weight. A value may be
    /// listed more than once.
    pub possible_values: Vec<(T, u32)>,
    /// The value the pixel has taken, once it has.
    pub determined_value: Option<T>,
}

/// A pixel as a mathematical value.
pub ghost struct PixelView<T> {
    /// The candidates, in their order, each with its weight. A value may occur more than
    /// once.
    pub possible: Seq<(T, u32)>,
    /// The value the pixel has taken, if it has.
    pub determined: Option<T>,
}

/// The values of a list of candidates, without their weights.
pub open spec fn values<T>(candidates: Seq<(T, u32)>) -> Seq<T> {
    candidates.map_values(|candidate: (T, u32)| candidate.0)
}

impl<T> PixelView<T> {
    /// A pixel that has taken a value holds that value as its only candidate, with the
    /// weight 1.
    pub open spec fn wf(self) -> bool {
        self.determined matches Some(value) ==> self.possible == seq![(value, 1u32)]
    }

    /// The pixel that has taken `value`.
    pub open spec fn of(value: T) -> Self {
        PixelView { possible: seq![(value, 1u32)], determined: Some(value) }
    }

    /// Every candidate has a weight above zero.
    pub open spec fn weighted(self) -> bool {
        forall|i: int| 0 <= i < self.possible.len() ==> (#[trigger] self.possible[i]).1 > 0
    }

    /// How far the pixel is from being settled: its candidates, and one more while it has
    /// not taken a value.
    pub open spec fn openness(self) -> nat {
        self.possible.len() + if self.determined is None {
            1nat
        } else {
            0nat
        }
    }
}

impl<T> View for Pixel<T> {
    type V = PixelView<T>;

    open spec fn view(&self) -> PixelView<T> {
        PixelView { possible: self.possible_values@, determined: self.determined_value }
    }
}

/// What `recalc` reports for the pixel `before`, given the candidates `kept` that the
/// constraint allows. `forced` says that a random source was handed in.
pub open spec fn verdict<T>(before: PixelView<T>, kept: Seq<(T, u32)>, forced: bool) -> PixelChangeResult {
    if kept.len() == 0 {
        PixelChangeResult::Invalid
    } else if before.determined is Some {
        PixelChangeResult::Unchanged
    } else if kept.len() == 1 || forced || kept.len() < before.possible.len() {
        PixelChangeResult::Updated
    } else {
        PixelChangeResult::Unchanged
    }
}

/// `recalc` reports `result` and leaves `after` of the pixel `before`, given the candidates
/// `kept` that the constraint allows, with the weights it gives them. A pixel that is left
/// without a candidate loses its candidates. A pixel that has taken its value stays as it
/// is. Any other pixel takes the last candidate as its value if one is left, else one of
/// the candidates with a weight above zero if `forced`, and else keeps what is allowed.
pub open spec fn recalculated<T>(
    before: PixelView<T>,
    kept: Seq<(T, u32)>,
    forced: bool,
    after: PixelView<T>,
    result: PixelChangeResult,
) -> bool {
    &&& result == verdict(before, kept, forced)
    &&& if kept.len() == 0 {
        after == PixelView { possible: kept, determined: before.determined }
    } else if before.determined is Some {
        after == before
    } else if kept.len() == 1 {
        after == PixelView::of(kept[0].0)
    } else if forced {
        exists|candidate: (T, u32)| #[trigger]
            kept.contains(candidate) && candidate.1 > 0 && after == PixelView::of(candidate.0)
    } else {
        after == PixelView { possible: kept, determined: None }
    }
}

/// `small` is made of the items of `large` at the indices `picks`, which go upwards.
pub open spec fn picked_from<A>(small: Seq<A>, large: Seq<A>, picks: Seq<int>) -> bool {
    &&& picks.len() == small.len()
    &&& forall|i: int| 0 <= i < picks.len() ==> 0 <= #[trigger] picks[i] < large.len()
    &&& forall|i: int, j: int|
        0 <= i < j < picks.len() ==> #[trigger] picks[i] < #[trigger] picks[j]
    &&& forall|i: int| 0 <= i < small.len() ==> #[trigger] small[i] == large[picks[i]]
}

/// `small` is what is left of `large` when some of its items are taken out: the items that
/// stay keep their order.
pub open spec fn is_subsequence<A>(small: Seq<A>, large: Seq<A>) -> bool {
    exists|picks: Seq<int>| #[trigger] picked_from(small, large, picks)
}

/// A list is a subsequence of itself.
pub proof fn lemma_subsequence_same<A>(list: Seq<A>)
    ensures
        is_subsequence(list, list),
{
    let picks = Seq::new(list.len(), |i: int| i);
    assert(picked_from(list, list, picks));
}

/// A subsequence of a subsequence is a subsequence.
pub proof fn lemma_subsequence_twice<A>(small: Seq<A>, middle: Seq<A>, large: Seq<A>)
    requires
        is_subsequence(small, middle),
        is_subsequence(middle, large),
    ensures
        is_subsequence(small, large),
{
    let first = choose|picks: Seq<int>| #[trigger] picked_from(small, middle, picks);
    let second = choose|picks: Seq<int>| #[trigger] picked_from(middle, large, picks);
    let picks = Seq::new(small.len(), |i: int| second[first[i]]);
    assert forall|i: int, j: int| 0 <= i < j < picks.len() implies #[trigger] picks[i]
        < #[trigger] picks[j] by {
        assert(first[i] < first[j]);
    }
    assert forall|i: int| 0 <= i < small.len() implies #[trigger] small[i] == large[picks[i]] by {
        assert(small[i] == middle[first[i]]);
    }
    assert(picked_from(small, large, picks));
}

/// One item of a list is a subsequence of the list.
pub proof fn lemma_subsequence_one<A>(large: Seq<A>, at: int)
    requires
        0 <= at < large.len(),
    ensures
        is_subsequence(seq![large[at]], large),
{
    let picks = seq![at];
    assert(picked_from(seq![large[at]], large, picks));
}

/// What a filter keeps is a subsequence of the list.
pub proof fn lemma_subsequence_kept<A>(list: Seq<A>, keep: spec_fn(A) -> bool)
    ensures
        is_subsequence(list.filter(keep), list),
    decreases list.len(),
{
    reveal(Seq::filter);
    if list.len() == 0 {
        lemma_subsequence_same(list);
    } else {
        let front = list.drop_last();
        lemma_subsequence_kept(front, keep);
        let before = choose|picks: Seq<int>| #[trigger]
            picked_from(front.filter(keep), front, picks);
        if keep(list.last()) {
            let picks = before.push(list.len() - 1);
            assert(picked_from(list.filter(keep), list, picks));
        } else {
            assert(picked_from(list.filter(keep), list, before));
        }
    }
}

/// The values of a subsequence are a subsequence of the values.
pub proof fn lemma_subsequence_values<T>(small: Seq<(T, u32)>, large: Seq<(T, u32)>)
    requires
        is_subsequence(small, large),
    ensures
        is_subsequence(values(small), values(large)),
{
    let picks = choose|picks: Seq<int>| #[trigger] picked_from(small, large, picks);
    assert forall|i: int| 0 <= i < values(small).len() implies #[trigger] values(small)[i]
        == values(large)[picks[i]] by {
        assert(small[i] == large[picks[i]]);
    }
    assert(picked_from(values(small), values(large), picks));
}

/// `after` is what became of `before`: it has a candidate, its values are what is left of
/// the values of `before` when some are taken out, and a value once taken stays.
pub open spec fn narrowed<T>(before: PixelView<T>, after: PixelView<T>) -> bool {
    &&& 0 < after.possible.len() <= before.possible.len()
    &&& is_subsequence(values(after.possible), values(before.possible))
    &&& forall|value: T|
        values(after.possible).contains(value) ==> values(before.possible).contains(value)
    &&& before.determined is Some ==> after == before
}

/// What was narrowed twice was narrowed.
pub proof fn lemma_narrowed_twice<T>(before: PixelView<T>, between: PixelView<T>, after: PixelView<T>)
    requires
        narrowed(before, between),
        narrowed(between, after),
    ensures
        narrowed(before, after),
{
    lemma_subsequence_twice(
        values(after.possible),
        values(between.possible),
        values(before.possible),
    );
}

/// `weigh` gives a candidate a weight and leaves its value alone.
pub open spec fn keeps_values<T>(weigh: spec_fn((T, u32)) -> (T, u32)) -> bool {
    forall|candidate: (T, u32)| (#[trigger] weigh(candidate)).0 == candidate.0
}

/// Two lists of candidates with the same values and the same weights, one by one, are the
/// same list.
pub proof fn lemma_same_candidates<T>(one: Seq<(T, u32)>, other: Seq<(T, u32)>)
    requires
        values(one) == values(other),
        forall|i: int| 0 <= i < one.len() ==> (#[trigger] one[i]).1 == other[i].1,
    ensures
        one == other,
{
    assert(values(one).len() == one.len());
    assert(values(other).len() == other.len());
    assert forall|i: int| 0 <= i < one.len() implies one[i] == other[i] by {
        assert(values(one)[i] == one[i].0);
        assert(values(other)[i] == other[i].0);
    }
    assert(one =~= other);
}

/// Keeping some candidates of a list and weighing them anew leaves no more candidates than
/// there were and no value that was not there; and if as many are left as there were, every
/// candidate was kept.
pub proof fn lemma_kept<T>(
    list: Seq<(T, u32)>,
    keep: spec_fn((T, u32)) -> bool,
    weigh: spec_fn((T, u32)) -> (T, u32),
)
    requires
        keeps_values(weigh),
    ensures
        list.filter(keep).map_values(weigh).len() == list.filter(keep).len(),
        list.filter(keep).len() <= list.len(),
        forall|i: int|
            0 <= i < list.filter(keep).len() ==> keep(#[trigger] list.filter(keep)[i])
                && list.contains(list.filter(keep)[i]),
        forall|value: T| #[trigger]
            values(list.filter(keep).map_values(weigh)).contains(value) ==> values(list).contains(
                value,
            ),
        list.filter(keep).len() == list.len() ==> list.filter(keep) == list,
        is_subsequence(values(list.filter(keep).map_values(weigh)), values(list)),
        forall|i: int|
            0 <= i < list.len() && keep(#[trigger] list[i]) ==> list.filter(keep).contains(list[i])
                && list.filter(keep).map_values(weigh).contains(weigh(list[i])),
        (forall|i: int| 0 <= i < list.len() ==> keep(#[trigger] list[i])) ==> list.filter(keep)
            == list,
    decreases list.len(),
{
    lemma_subsequence_kept(list, keep);
    lemma_subsequence_values(list.filter(keep), list);
    assert(values(list.filter(keep).map_values(weigh)) =~= values(list.filter(keep))) by {
        assert forall|i: int| 0 <= i < list.filter(keep).len() implies values(
            list.filter(keep).map_values(weigh),
        )[i] == values(list.filter(keep))[i] by {
            assert(list.filter(keep).map_values(weigh)[i] == weigh(list.filter(keep)[i]));
        }
    }
    reveal(Seq::filter);
    let chosen = list.filter(keep);
    let kept = chosen.map_values(weigh);
    if list.len() > 0 {
        let front = list.drop_last();
        lemma_kept(front, keep, weigh);
        assert(list =~= front.push(list.last()));
        assert forall|i: int| 0 <= i < chosen.len() implies keep(#[trigger] chosen[i])
            && list.contains(chosen[i]) by {
            if i < front.filter(keep).len() {
                assert(chosen[i] == front.filter(keep)[i]);
                assert(front.contains(chosen[i]));
                let j = choose|j: int| 0 <= j < front.len() && front[j] == chosen[i];
                assert(list[j] == chosen[i]);
            } else {
                assert(list[list.len() - 1] == chosen[i]);
            }
        }
        if chosen.len() == list.len() {
            assert(chosen =~= list);
        }
        assert forall|i: int| 0 <= i < list.len() && keep(#[trigger] list[i]) implies chosen.contains(
            list[i],
        ) && kept.contains(weigh(list[i])) by {
            if i < front.len() {
                assert(front[i] == list[i]);
                assert(front.filter(keep).contains(front[i]));
                let k = choose|k: int|
                    0 <= k < front.filter(keep).len() && front.filter(keep)[k] == list[i];
                assert(chosen[k] == list[i]);
                assert(kept[k] == weigh(list[i]));
            } else {
                assert(chosen[chosen.len() - 1] == list[i]);
                assert(kept[chosen.len() - 1] == weigh(list[i]));
            }
        }
        if forall|i: int| 0 <= i < list.len() ==> keep(#[trigger] list[i]) {
            assert forall|i: int| 0 <= i < front.len() implies keep(#[trigger] front[i]) by {
                assert(front[i] == list[i]);
            }
            assert(keep(list[list.len() - 1]));
            assert(chosen =~= list);
        }
    }
    assert forall|value: T| #[trigger] values(kept).contains(value) implies values(list).contains(
        value,
    ) by {
        let i = choose|i: int| 0 <= i < values(kept).len() && values(kept)[i] == value;
        assert(kept[i] == weigh(chosen[i]));
        assert(list.contains(chosen[i]));
        let j = choose|j: int| 0 <= j < list.len() && list[j] == chosen[i];
        assert(values(list)[j] == value);
    }
}

/// What a `recalc` that did not fail does to a well-formed pixel: the pixel stays
/// well-formed and is narrowed; where `Updated` is reported it has come closer to being
/// settled, and where `Unchanged` is reported it holds the values it held.
pub proof fn lemma_recalculated<T>(
    before: PixelView<T>,
    keep: spec_fn((T, u32)) -> bool,
    weigh: spec_fn((T, u32)) -> (T, u32),
    forced: bool,
    after: PixelView<T>,
    result: PixelChangeResult,
)
    requires
        before.wf(),
        keeps_values(weigh),
        recalculated(
            before,
            before.possible.filter(keep).map_values(weigh),
            forced,
            after,
            result,
        ),
    ensures
        result != PixelChangeResult::Invalid ==> after.wf() && narrowed(before, after),
        result == PixelChangeResult::Updated ==> after.openness() < before.openness(),
        result == PixelChangeResult::Unchanged ==> {
            &&& after.determined == before.determined
            &&& values(after.possible) == values(before.possible)
            &&& before.possible.filter(keep) == before.possible
        },
{
    let chosen = before.possible.filter(keep);
    let kept = chosen.map_values(weigh);
    lemma_kept(before.possible, keep, weigh);
    if kept.len() > 0 {
        if before.determined is Some {
            assert(before.possible.len() == 1);
            assert(chosen =~= before.possible);
            lemma_subsequence_same(values(before.possible));
        } else if kept.len() == 1 {
            assert(values(kept)[0] == kept[0].0);
            assert(values(kept).contains(kept[0].0));
            assert(values(after.possible) =~= values(kept));
            assert forall|value: T| values(after.possible).contains(value) implies values(
                before.possible,
            ).contains(value) by {
                let i = choose|i: int|
                    0 <= i < values(after.possible).len() && values(after.possible)[i] == value;
                assert(value == kept[0].0);
            }
        } else if forced {
            let picked = choose|candidate: (T, u32)| #[trigger]
                kept.contains(candidate) && candidate.1 > 0 && after == PixelView::of(
                    candidate.0,
                );
            let k = choose|k: int| 0 <= k < kept.len() && kept[k] == picked;
            assert(values(kept)[k] == picked.0);
            assert(values(kept).contains(picked.0));
            assert forall|value: T| values(after.possible).contains(value) implies values(
                before.possible,
            ).contains(value) by {
                let i = choose|i: int|
                    0 <= i < values(after.possible).len() && values(after.possible)[i] == value;
                assert(value == picked.0);
            }
            assert(values(after.possible) =~= seq![values(kept)[k]]);
            lemma_subsequence_one(values(kept), k);
            lemma_subsequence_twice(
                values(after.possible),
                values(kept),
                values(before.possible),
            );
        } else {
            if kept.len() == before.possible.len() {
                assert(values(kept) =~= values(before.possible)) by {
                    assert forall|i: int| 0 <= i < kept.len() implies values(kept)[i] == values(
                        before.possible,
                    )[i] by {
                        assert(kept[i] == weigh(chosen[i]));
                    }
                }
            }
        }
    }
}

impl<T: Copy> Clone for Pixel<T> {
    fn clone(&self) -> (copy: Self)
        ensures
            copy@ == self@,
    {
        let mut candidates: Vec<(T, u32)> = Vec::new();
        let mut i: usize = 0;
        while i < self.possible_values.len()
            invariant
                i <= self.possible_values.len(),
                candidates@ == self.possible_values@.take(i as int),
            decreases self.possible_values.len() - i,
        {
            candidates.push(self.possible_values[i]);
            proof {
                assert(self.possible_values@.take(i + 1) =~= self.possible_values@.take(i as int).push(
                    self.possible_values@[i as int],
                ));
            }
            i += 1;
        }
        proof {
            assert(self.possible_values@.take(self.possible_values.len() as int)
                =~= self.possible_values@);
        }
        Pixel { possible_values: candidates, determined_value: self.determined_value }
    }
}

impl<T: PossibleValues> Default for Pixel<T> {
    /// The pixel that may still take every value of `T`.
    fn default() -> (pixel: Self)
        ensures
            pixel@.determined is None,
            is_universe(pixel@.possible),
    {
        Self { possible_values: T::get_possible_values(), determined_value: None }
    }
}

impl<T: PossibleValues> Pixel<T> {
    /// The pixel that has taken the value `item`.
    pub fn new(item: T) -> (pixel: Pixel<T>)
        ensures
            pixel@ == PixelView::of(item),
    {
        let mut candidates: Vec<(T, u32)> = Vec::new();
        candidates.push((item, 1));
        Pixel { possible_values: candidates, determined_value: Some(item) }
    }

    /// Whether the pixel is well-formed.
    pub fn well_formed(&self) -> (ok: bool)
        ensures
            eq_is_identity::<T>() ==> ok == self@.wf(),
    {
        match self.determined_value {
            None => true,
            Some(value) => {
                if self.possible_values.len() != 1 {
                    return false;
                }
                proof {
                    assert(self.possible_values@ =~= seq![self.possible_values@[0]]);
                    assert(seq![(value, 1u32)][0] == (value, 1u32));
                }
                self.possible_values[0].0 == value && self.possible_values[0].1 == 1
            },
        }
    }

    /// The values the pixel may still take, in order, without their weights.
    pub fn values(&self) -> (list: Vec<T>)
        ensures
            list@ == values(self@.possible),
    {
        let mut list: Vec<T> = Vec::new();
        let mut i: usize = 0;
        while i < self.possible_values.len()
            invariant
                i <= self.possible_values.len(),
                list@ == values(self.possible_values@.take(i as int)),
            decreases self.possible_values.len() - i,
        {
            list.push(self.possible_values[i].0);
            proof {
                assert(values(self.possible_values@.take(i + 1)) =~= values(
                    self.possible_values@.take(i as int),
                ).push(self.possible_values@[i as int].0));
            }
            i += 1;
        }
        proof {
            assert(self.possible_values@.take(self.possible_values.len() as int)
                =~= self.possible_values@);
        }
        list
    }

    /// Whether the candidates of the two pixels have the same weights, one by one.
    pub fn same_weights(&self, other: &Pixel<T>) -> (same: bool)
        ensures
            same == {
                &&& self@.possible.len() == other@.possible.len()
                &&& forall|i: int|
                    0 <= i < self@.possible.len() ==> (#[trigger] self@.possible[i]).1
                        == other@.possible[i].1
            },
    {
        if self.possible_values.len() != other.possible_values.len() {
            return false;
        }
        let mut i: usize = 0;
        while i < self.possible_values.len()
            invariant
                i <= self.possible_values.len(),
                self.possible_values.len() == other.possible_values.len(),
                forall|j: int|
                    0 <= j < i ==> (#[trigger] self.possible_values@[j]).1
                        == other.possible_values@[j].1,
            decreases self.possible_values.len() - i,
        {
            if self.possible_values[i].1 != other.possible_values[i].1 {
                return false;
            }
            i += 1;
        }
        true
    }

    /// Asks `test` about every candidate, in order. Returns those it does not say no to,
    /// with the weights it gives them.
    fn sift<const D: usize, F: Fn(&Grid<T, D>, [usize; D], &T, u32) -> (bool, u32)>(
        &self,
        grid: &Grid<T, D>,
        location: [usize; D],
        test: &F,
    ) -> (kept: Vec<(T, u32)>)
        requires
            is_rule(*test),
            grid.wf(),
            grid.has(location),
        ensures
            kept@ == allowed(*test, *grid, location, self@.possible),
            answered(*test, *grid, location, self@.possible),
            keeps_weight(*test) && self@.weighted() ==> forall|i: int|
                0 <= i < kept@.len() ==> (#[trigger] kept@[i]).1 > 0,
    {
        let ghost before = self.possible_values@;
        let ghost keep = permits(*test, *grid, location);
        let ghost weigh = reweighs(*test, *grid, location);
        let count = self.possible_values.len();
        let mut kept: Vec<(T, u32)> = Vec::new();
        let mut i: usize = 0;
        while i < count
            invariant
                i <= count,
                count == before.len(),
                self.possible_values@ == before,
                is_rule(*test),
                grid.wf(),
                grid.has(location),
                keep == permits(*test, *grid, location),
                weigh == reweighs(*test, *grid, location),
                kept@ == before.take(i as int).filter(keep).map_values(weigh),
                forall|j: int|
                    0 <= j < i ==> allows(*test, *grid, location, #[trigger] before[j]) || denies(
                        *test,
                        *grid,
                        location,
                        before[j],
                    ),
                keeps_weight(*test) && self@.weighted() ==> forall|j: int|
                    0 <= j < kept@.len() ==> (#[trigger] kept@[j]).1 > 0,
            decreases count - i,
        {
            let candidate = self.possible_values[i];
            let answer = test(grid, location, &candidate.0, candidate.1);
            proof {
                reveal(Seq::filter);
                assert(before.take(i + 1).drop_last() =~= before.take(i as int));
                assert(says(*test, *grid, location, candidate, answer));
                lemma_answer(*test, *grid, location, candidate, answer);
                let front = before.take(i as int).filter(keep);
                if answer.0 {
                    assert(before.take(i + 1).filter(keep) == front.push(candidate));
                    assert(front.push(candidate).map_values(weigh) =~= front.map_values(weigh).push(
                        (candidate.0, answer.1),
                    ));
                    if keeps_weight(*test) && self@.weighted() {
                        assert(self@.possible[i as int].1 > 0);
                        assert(candidate.1 > 0);
                        assert(call_ensures(
                            *test,
                            (grid, location, &candidate.0, candidate.1),
                            (true, answer.1),
                        ));
                    }
                }
            }
            if answer.0 {
                kept.push((candidate.0, answer.1));
            }
            i += 1;
        }
        proof {
            assert(before.take(count as int) =~= before);
            assert forall|candidate: (T, u32)| before.contains(candidate) implies #[trigger] allows(
                *test,
                *grid,
                location,
                candidate,
            ) || denies(*test, *grid, location, candidate) by {
                let j = choose|j: int| 0 <= j < before.len() && before[j] == candidate;
                assert(allows(*test, *grid, location, before[j]) || denies(
                    *test,
                    *grid,
                    location,
                    before[j],
                ));
            }
        }
        kept
    }

    /// Drops the candidates that `test` says no to at `location` of `grid` and gives the
    /// others the weights that `test` gives them, then settles the pixel if it can: on its
    /// last candidate, or, where `randomize` is given, on one of the candidates that are
    /// left, picked at random by their weights. A pixel that has taken its value is looked
    /// at and left as it is.
    ///
    /// Where a candidate is to be picked among two or more, one of them must have a weight
    /// above zero.
    pub fn recalc<const D: usize, F: Fn(&Grid<T, D>, [usize; D], &T, u32) -> (bool, u32)>(
        &mut self,
        grid: &Grid<T, D>,
        location: [usize; D],
        test: F,
        randomize: Option<&mut StdRng>,
    ) -> (result: PixelChangeResult)
        requires
            is_rule(test),
            grid.wf(),
            grid.has(location),
            randomize is Some && old(self)@.determined is None && allowed(
                test,
                *grid,
                location,
                old(self)@.possible,
            ).len() >= 2 ==> drawable(test, *grid, location, old(self)@.possible),
        ensures
            recalculated(
                old(self)@,
                allowed(test, *grid, location, old(self)@.possible),
                randomize is Some,
                final(self)@,
                result,
            ),
            answered(test, *grid, location, old(self)@.possible),
            result == PixelChangeResult::Invalid <==> final(self)@.possible.len() == 0,
            old(self)@.wf() && result != PixelChangeResult::Invalid ==> final(self)@.wf()
                && narrowed(old(self)@, final(self)@),
            keeps_weight(test) && old(self)@.weighted() ==> final(self)@.weighted(),
    {
        let kept = self.sift(grid, location, &test);
        proof {
            lemma_kept(
                self@.possible,
                permits(test, *grid, location),
                reweighs(test, *grid, location),
            );
        }
        let result = if kept.len() == 0 {
            self.possible_values = kept;
            PixelChangeResult::Invalid
        } else if self.determined_value.is_some() {
            PixelChangeResult::Unchanged
        } else if kept.len() == 1 {
            *self = Pixel::new(kept[0].0);
            PixelChangeResult::Updated
        } else {
            let picked = match randomize {
                Some(rng) => {
                    proof {
                        lemma_drawn(test, *grid, location, self@.possible);
                    }
                    choose_weighted_value(&kept, rng)
                },
                None => None,
            };
            match picked {
                Some(value) => {
                    proof {
                        let i = choose|i: int|
                            0 <= i < kept@.len() && (#[trigger] kept@[i]).0 == value && kept@[i].1
                                > 0;
                        assert(kept@.contains(kept@[i]));
                    }
                    *self = Pixel::new(value);
                    PixelChangeResult::Updated
                },
                None => {
                    let dropped = kept.len() < self.possible_values.len();
                    self.possible_values = kept;
                    if dropped {
                        PixelChangeResult::Updated
                    } else {
                        PixelChangeResult::Unchanged
                    }
                },
            }
        };
        proof {
            if old(self)@.wf() {
                lemma_recalculated(
                    old(self)@,
                    permits(test, *grid, location),
                    reweighs(test, *grid, location),
                    randomize is Some,
                    self@,
                    result,
                );
            }
        }
        result
    }
}

/// Among the candidates that are left of a list of which one can be drawn, one has a weight
/// above zero.
pub proof fn lemma_drawn<T: PossibleValues, const D: usize, F: Fn(&Grid<T, D>, [usize; D], &T, u32) -> (bool, u32)>(
    test: F,
    grid: Grid<T, D>,
    location: [usize; D],
    candidates: Seq<(T, u32)>,
)
    requires
        drawable(test, grid, location, candidates),
        answered(test, grid, location, candidates),
    ensures
        exists|i: int|
            0 <= i < allowed(test, grid, location, candidates).len() && (#[trigger] allowed(
                test,
                grid,
                location,
                candidates,
            )[i]).1 > 0,
{
    let kept = allowed(test, grid, location, candidates);
    let candidate = choose|candidate: (T, u32)|
        candidates.contains(candidate) && !denies(test, grid, location, candidate)
            && #[trigger] weighty(test, grid, location, candidate);
    lemma_kept(candidates, permits(test, grid, location), reweighs(test, grid, location));
    let at = choose|at: int| 0 <= at < candidates.len() && candidates[at] == candidate;
    assert(permits(test, grid, location)(candidates[at]));
    let weighed = reweighs(test, grid, location)(candidate);
    assert(kept.contains(weighed));
    assert(allows(test, grid, location, candidate));
    let given = choose|given: u32| #[trigger] says(test, grid, location, candidate, (true, given));
    assert(crate::rule::yes_weights(test, grid, location, candidate).contains(given));
    assert(says(test, grid, location, candidate, (true, weighs(test, grid, location, candidate))));
    let i = choose|i: int| 0 <= i < kept.len() && kept[i] == weighed;
    assert(kept[i].1 > 0);
}

} // verus!
