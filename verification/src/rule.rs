//! What the solver asks of a constraint, and what it says about one.
//!
//! A constraint is a function value `test(grid, location, value, weight) -> (bool, u32)`.
//! It is asked whether `value`, which has the weight `weight`, may stand at `location` of
//! `grid`; it answers yes or no, and with its yes gives the value the weight it is to have
//! from now on. The solver never looks inside it: its contracts speak of the answers the
//! function can give.
use vstd::prelude::*;
use crate::grid::Grid;
use crate::layout::{coords, lemma_offset_in_volume, offset, within};
use crate::neighborhood::{lemma_near_self, near};
use crate::pixel::{lemma_kept, PixelView, PossibleValues};

verus! {

/// `test` can answer `answer` when asked about `candidate` at `location` of `grid`.
pub open spec fn says<T: PossibleValues, const D: usize, F: Fn(&Grid<T, D>, [usize; D], &T, u32) -> (bool, u32)>(
    test: F,
    grid: Grid<T, D>,
    location: [usize; D],
    candidate: (T, u32),
    answer: (bool, u32),
) -> bool {
    call_ensures(test, (&grid, location, &candidate.0, candidate.1), answer)
}

/// `test` can say yes to `candidate` at `location` of `grid`.
pub open spec fn allows<T: PossibleValues, const D: usize, F: Fn(&Grid<T, D>, [usize; D], &T, u32) -> (bool, u32)>(
    test: F,
    grid: Grid<T, D>,
    location: [usize; D],
    candidate: (T, u32),
) -> bool {
    exists|weight: u32| #[trigger] says(test, grid, location, candidate, (true, weight))
}

/// `test` can say no to `candidate` at `location` of `grid`.
pub open spec fn denies<T: PossibleValues, const D: usize, F: Fn(&Grid<T, D>, [usize; D], &T, u32) -> (bool, u32)>(
    test: F,
    grid: Grid<T, D>,
    location: [usize; D],
    candidate: (T, u32),
) -> bool {
    exists|weight: u32| #[trigger] says(test, grid, location, candidate, (false, weight))
}

/// The weights that `test` can give `candidate` with a yes.
pub open spec fn yes_weights<T: PossibleValues, const D: usize, F: Fn(&Grid<T, D>, [usize; D], &T, u32) -> (bool, u32)>(
    test: F,
    grid: Grid<T, D>,
    location: [usize; D],
    candidate: (T, u32),
) -> Set<u32> {
    Set::new(|weight: u32| says(test, grid, location, candidate, (true, weight)))
}

/// The weight that `test` gives `candidate` with its yes.
pub open spec fn weighs<T: PossibleValues, const D: usize, F: Fn(&Grid<T, D>, [usize; D], &T, u32) -> (bool, u32)>(
    test: F,
    grid: Grid<T, D>,
    location: [usize; D],
    candidate: (T, u32),
) -> u32 {
    yes_weights(test, grid, location, candidate).choose()
}

/// `test` can be asked about every value at every cell of every well-formed grid, and never
/// answers one question in two ways.
pub open spec fn is_rule<T: PossibleValues, const D: usize, F: Fn(&Grid<T, D>, [usize; D], &T, u32) -> (bool, u32)>(
    test: F,
) -> bool {
    &&& forall|grid: &Grid<T, D>, location: [usize; D], value: &T, weight: u32|
        grid.wf() && grid.has(location) ==> #[trigger] call_requires(
            test,
            (grid, location, value, weight),
        )
    &&& forall|
        grid: &Grid<T, D>,
        location: [usize; D],
        value: &T,
        weight: u32,
        one: (bool, u32),
        other: (bool, u32),
    |
        #[trigger] call_ensures(test, (grid, location, value, weight), one)
            && #[trigger] call_ensures(test, (grid, location, value, weight), other) ==> one
            == other
}

/// `test` gives no weight of zero to a value that had a weight above zero.
pub open spec fn keeps_weight<T: PossibleValues, const D: usize, F: Fn(&Grid<T, D>, [usize; D], &T, u32) -> (bool, u32)>(
    test: F,
) -> bool {
    forall|grid: &Grid<T, D>, location: [usize; D], value: &T, weight: u32, given: u32|
        weight > 0 && #[trigger] call_ensures(test, (grid, location, value, weight), (true, given))
            ==> given > 0
}

/// `test` says no to nothing.
pub open spec fn denies_nothing<T: PossibleValues, const D: usize, F: Fn(&Grid<T, D>, [usize; D], &T, u32) -> (bool, u32)>(
    test: F,
) -> bool {
    forall|grid: &Grid<T, D>, location: [usize; D], value: &T, weight: u32, given: u32|
        !#[trigger] call_ensures(test, (grid, location, value, weight), (false, given))
}

/// `test` gives `candidate` no weight of zero with a yes.
pub open spec fn weighty<T: PossibleValues, const D: usize, F: Fn(&Grid<T, D>, [usize; D], &T, u32) -> (bool, u32)>(
    test: F,
    grid: Grid<T, D>,
    location: [usize; D],
    candidate: (T, u32),
) -> bool {
    forall|given: u32| #[trigger] says(test, grid, location, candidate, (true, given)) ==> given > 0
}

/// One of `candidates` can be drawn: `test` does not say no to it and gives it a weight
/// above zero.
pub open spec fn drawable<T: PossibleValues, const D: usize, F: Fn(&Grid<T, D>, [usize; D], &T, u32) -> (bool, u32)>(
    test: F,
    grid: Grid<T, D>,
    location: [usize; D],
    candidates: Seq<(T, u32)>,
) -> bool {
    exists|candidate: (T, u32)|
        candidates.contains(candidate) && !denies(test, grid, location, candidate)
            && #[trigger] weighty(test, grid, location, candidate)
}

/// `test` has an answer to each of `candidates`.
pub open spec fn answered<T: PossibleValues, const D: usize, F: Fn(&Grid<T, D>, [usize; D], &T, u32) -> (bool, u32)>(
    test: F,
    grid: Grid<T, D>,
    location: [usize; D],
    candidates: Seq<(T, u32)>,
) -> bool {
    forall|candidate: (T, u32)|
        candidates.contains(candidate) ==> #[trigger] allows(test, grid, location, candidate)
            || denies(test, grid, location, candidate)
}

/// The candidates that `test` does not say no to at `location` of `grid`.
pub open spec fn permits<T: PossibleValues, const D: usize, F: Fn(&Grid<T, D>, [usize; D], &T, u32) -> (bool, u32)>(
    test: F,
    grid: Grid<T, D>,
    location: [usize; D],
) -> spec_fn((T, u32)) -> bool {
    |candidate: (T, u32)| !denies(test, grid, location, candidate)
}

/// The candidates with the weights that `test` gives them at `location` of `grid`.
pub open spec fn reweighs<T: PossibleValues, const D: usize, F: Fn(&Grid<T, D>, [usize; D], &T, u32) -> (bool, u32)>(
    test: F,
    grid: Grid<T, D>,
    location: [usize; D],
) -> spec_fn((T, u32)) -> (T, u32) {
    |candidate: (T, u32)| (candidate.0, weighs(test, grid, location, candidate))
}

/// What is left of `candidates` once `test` has been asked about each of them: those it
/// does not say no to, in their order, with the weights it gives them.
pub open spec fn allowed<T: PossibleValues, const D: usize, F: Fn(&Grid<T, D>, [usize; D], &T, u32) -> (bool, u32)>(
    test: F,
    grid: Grid<T, D>,
    location: [usize; D],
    candidates: Seq<(T, u32)>,
) -> Seq<(T, u32)> {
    candidates.filter(permits(test, grid, location)).map_values(reweighs(test, grid, location))
}

/// What an answer of `test` tells: with a yes the candidate is allowed and weighs what the
/// answer says, and with a no the candidate is not allowed.
pub proof fn lemma_answer<T: PossibleValues, const D: usize, F: Fn(&Grid<T, D>, [usize; D], &T, u32) -> (bool, u32)>(
    test: F,
    grid: Grid<T, D>,
    location: [usize; D],
    candidate: (T, u32),
    answer: (bool, u32),
)
    requires
        is_rule(test),
        says(test, grid, location, candidate, answer),
    ensures
        answer.0 == allows(test, grid, location, candidate),
        answer.0 ==> answer.1 == weighs(test, grid, location, candidate),
        !answer.0 == denies(test, grid, location, candidate),
{
    let value = candidate.0;
    let weight = candidate.1;
    assert(call_ensures(test, (&grid, location, &value, weight), answer));
    if allows(test, grid, location, candidate) {
        let given = choose|given: u32| #[trigger]
            says(test, grid, location, candidate, (true, given));
        assert(call_ensures(test, (&grid, location, &value, weight), (true, given)));
        assert(yes_weights(test, grid, location, candidate).contains(given));
        let chosen = weighs(test, grid, location, candidate);
        assert(yes_weights(test, grid, location, candidate).contains(chosen));
        assert(call_ensures(test, (&grid, location, &value, weight), (true, chosen)));
    }
    if denies(test, grid, location, candidate) {
        let given = choose|given: u32| #[trigger]
            says(test, grid, location, candidate, (false, given));
        assert(call_ensures(test, (&grid, location, &value, weight), (false, given)));
    }
    if answer.0 {
        assert(says(test, grid, location, candidate, (true, answer.1)));
    } else {
        assert(says(test, grid, location, candidate, (false, answer.1)));
    }
}

/// A borrowed constraint allows what the constraint allows.
pub proof fn lemma_borrowed_rule<T: PossibleValues, const D: usize, F: Fn(&Grid<T, D>, [usize; D], &T, u32) -> (bool, u32)>(
    test: F,
    grid: Grid<T, D>,
)
    ensures
        forall|location: [usize; D]| #[trigger]
            permits(&test, grid, location) == permits(test, grid, location),
        forall|location: [usize; D]| #[trigger]
            reweighs(&test, grid, location) == reweighs(test, grid, location),
        forall|location: [usize; D], candidate: (T, u32)| #[trigger]
            allows(&test, grid, location, candidate) == allows(test, grid, location, candidate),
{
    assert forall|location: [usize; D], candidate: (T, u32)| #[trigger]
        allows(&test, grid, location, candidate) == allows(test, grid, location, candidate) by {
        if allows(&test, grid, location, candidate) {
            let given = choose|given: u32| #[trigger]
                says(&test, grid, location, candidate, (true, given));
            assert(says(test, grid, location, candidate, (true, given)));
        }
        if allows(test, grid, location, candidate) {
            let given = choose|given: u32| #[trigger]
                says(test, grid, location, candidate, (true, given));
            assert(says(&test, grid, location, candidate, (true, given)));
        }
    }
    assert forall|location: [usize; D], candidate: (T, u32), answer: (bool, u32)|
        says(&test, grid, location, candidate, answer) == says(
            test,
            grid,
            location,
            candidate,
            answer,
        ) by {}
    assert forall|location: [usize; D]| #[trigger]
        permits(&test, grid, location) == permits(test, grid, location) by {
        assert forall|candidate: (T, u32)|
            denies(&test, grid, location, candidate) == denies(test, grid, location, candidate) by {
            if denies(&test, grid, location, candidate) {
                let given = choose|given: u32| #[trigger]
                    says(&test, grid, location, candidate, (false, given));
                assert(says(test, grid, location, candidate, (false, given)));
            }
            if denies(test, grid, location, candidate) {
                let given = choose|given: u32| #[trigger]
                    says(test, grid, location, candidate, (false, given));
                assert(says(&test, grid, location, candidate, (false, given)));
            }
        }
        assert(permits(&test, grid, location) =~= permits(test, grid, location));
    }
    assert forall|location: [usize; D]| #[trigger]
        reweighs(&test, grid, location) == reweighs(test, grid, location) by {
        assert forall|candidate: (T, u32)|
            weighs(&test, grid, location, candidate) == weighs(test, grid, location, candidate) by {
            assert(yes_weights(&test, grid, location, candidate) =~= yes_weights(
                test,
                grid,
                location,
                candidate,
            ));
        }
        assert(reweighs(&test, grid, location) =~= reweighs(test, grid, location));
    }
}

/// Wherever a candidate is to be drawn among two or more at a cell of a well-formed grid,
/// one of them can be drawn.
pub open spec fn always_drawable<T: PossibleValues, const D: usize, F: Fn(&Grid<T, D>, [usize; D], &T, u32) -> (bool, u32)>(
    test: F,
) -> bool {
    forall|grid: &Grid<T, D>, location: [usize; D]|
        grid.wf() && grid.has(location) && allowed(
            test,
            *grid,
            location,
            grid.cell(coords(location@)).possible,
        ).len() >= 2 ==> #[trigger] drawable(
            test,
            *grid,
            location,
            grid.cell(coords(location@)).possible,
        )
}

/// A candidate can be drawn wherever the solver is to draw one in `grid`, and in what the
/// solver makes of `grid`: the constraint sees to it by itself, or the weights in `grid` are
/// above zero and the constraint keeps them so.
pub open spec fn can_draw<T: PossibleValues, const D: usize, F: Fn(&Grid<T, D>, [usize; D], &T, u32) -> (bool, u32)>(
    test: F,
    grid: Grid<T, D>,
) -> bool {
    always_drawable(test) || (keeps_weight(test) && grid.weighted())
}

/// A constraint that hands back with every yes the weight it was given keeps weights above
/// zero.
pub proof fn lemma_same_weight_kept<T: PossibleValues, const D: usize, F: Fn(&Grid<T, D>, [usize; D], &T, u32) -> (bool, u32)>(
    test: F,
)
    requires
        forall|grid: &Grid<T, D>, location: [usize; D], value: &T, weight: u32, given: u32|
            #[trigger] call_ensures(test, (grid, location, value, weight), (true, given)) ==> given
                == weight,
    ensures
        keeps_weight(test),
{
}

/// A grid in which every pixel is open and holds the same candidates, one at least and each
/// with a weight above zero, can be drawn from under a constraint that keeps weights above
/// zero, and each of its pixels has a candidate.
pub proof fn lemma_fresh_grid_draws<T: PossibleValues, const D: usize, F: Fn(&Grid<T, D>, [usize; D], &T, u32) -> (bool, u32)>(
    test: F,
    grid: Grid<T, D>,
    universe: Seq<(T, u32)>,
)
    requires
        grid.wf(),
        universe.len() > 0,
        forall|i: int| 0 <= i < universe.len() ==> (#[trigger] universe[i]).1 > 0,
        forall|i: int|
            0 <= i < grid.data@.len() ==> (#[trigger] grid.data@[i])@ == (PixelView {
                possible: universe,
                determined: None,
            }),
        keeps_weight(test),
    ensures
        grid.weighted(),
        grid.stocked(),
        can_draw(test, grid),
{
    assert forall|i: int| 0 <= i < grid.data@.len() implies (#[trigger] grid.data@[i])@.weighted() by {
        assert(grid.data@[i]@.possible == universe);
    }
    assert forall|location: Seq<int>| within(grid.dims(), location) implies (#[trigger] grid.cell(
        location,
    )).possible.len() > 0 by {
        lemma_offset_in_volume(grid.dims(), location);
        assert(grid.data@[offset(grid.dims(), location)]@.possible == universe);
    }
}

/// A constraint that gives no weight of zero with any yes can always be drawn from.
pub proof fn lemma_weighty_rule<T: PossibleValues, const D: usize, F: Fn(&Grid<T, D>, [usize; D], &T, u32) -> (bool, u32)>(
    test: F,
)
    requires
        forall|grid: &Grid<T, D>, location: [usize; D], value: &T, weight: u32, given: u32|
            #[trigger] call_ensures(test, (grid, location, value, weight), (true, given)) ==> given
                > 0,
    ensures
        always_drawable(test),
        keeps_weight(test),
{
    assert forall|grid: &Grid<T, D>, location: [usize; D]|
        grid.wf() && grid.has(location) && allowed(
            test,
            *grid,
            location,
            grid.cell(coords(location@)).possible,
        ).len() >= 2 implies #[trigger] drawable(
        test,
        *grid,
        location,
        grid.cell(coords(location@)).possible,
    ) by {
        let candidates = grid.cell(coords(location@)).possible;
        let keep = permits(test, *grid, location);
        let chosen = candidates.filter(keep);
        candidates.lemma_filter_pred(keep, 0);
        candidates.lemma_filter_contains_rev(keep, chosen[0]);
        let candidate = chosen[0];
        assert(weighty(test, *grid, location, candidate)) by {
            assert forall|given: u32| #[trigger]
                says(test, *grid, location, candidate, (true, given)) implies given > 0 by {
                assert(call_ensures(
                    test,
                    (grid, location, &candidate.0, candidate.1),
                    (true, given),
                ));
            }
        }
    }
}

/// Of candidates with weights above zero, under a constraint that keeps them so, one can be
/// drawn if one is left.
pub proof fn lemma_weighted_draws<T: PossibleValues, const D: usize, F: Fn(&Grid<T, D>, [usize; D], &T, u32) -> (bool, u32)>(
    test: F,
    grid: Grid<T, D>,
    location: [usize; D],
    candidates: Seq<(T, u32)>,
)
    requires
        keeps_weight(test),
        forall|i: int| 0 <= i < candidates.len() ==> (#[trigger] candidates[i]).1 > 0,
        allowed(test, grid, location, candidates).len() >= 1,
    ensures
        drawable(test, grid, location, candidates),
{
    let keep = permits(test, grid, location);
    let chosen = candidates.filter(keep);
    candidates.lemma_filter_pred(keep, 0);
    candidates.lemma_filter_contains_rev(keep, chosen[0]);
    let candidate = chosen[0];
    let at = choose|at: int| 0 <= at < candidates.len() && candidates[at] == candidate;
    assert(candidates[at].1 > 0);
    assert(weighty(test, grid, location, candidate)) by {
        assert forall|given: u32| #[trigger]
            says(test, grid, location, candidate, (true, given)) implies given > 0 by {
            assert(call_ensures(test, (&grid, location, &candidate.0, candidate.1), (true, given)));
        }
    }
}

/// A constraint that says no to nothing leaves as many candidates as there were.
pub proof fn lemma_nothing_denied<T: PossibleValues, const D: usize, F: Fn(&Grid<T, D>, [usize; D], &T, u32) -> (bool, u32)>(
    test: F,
    grid: Grid<T, D>,
    location: [usize; D],
    candidates: Seq<(T, u32)>,
)
    requires
        denies_nothing(test),
    ensures
        candidates.filter(permits(test, grid, location)) == candidates,
        allowed(test, grid, location, candidates).len() == candidates.len(),
{
    let keep = permits(test, grid, location);
    assert forall|i: int| 0 <= i < candidates.len() implies keep(#[trigger] candidates[i]) by {
        let candidate = candidates[i];
        if denies(test, grid, location, candidate) {
            let given = choose|given: u32| #[trigger]
                says(test, grid, location, candidate, (false, given));
            assert(call_ensures(test, (&grid, location, &candidate.0, candidate.1), (false, given)));
        }
    }
    lemma_kept(candidates, keep, reweighs(test, grid, location));
}

/// What can be drawn under a constraint can be drawn under the borrowed constraint.
pub proof fn lemma_borrowed_draw<T: PossibleValues, const D: usize, F: Fn(&Grid<T, D>, [usize; D], &T, u32) -> (bool, u32)>(
    test: F,
    grid: Grid<T, D>,
    location: [usize; D],
    candidates: Seq<(T, u32)>,
)
    ensures
        drawable(&test, grid, location, candidates) == drawable(test, grid, location, candidates),
        answered(&test, grid, location, candidates) == answered(test, grid, location, candidates),
        all_allowed(&test, grid, location, candidates) == all_allowed(
            test,
            grid,
            location,
            candidates,
        ),
        allowed(&test, grid, location, candidates) == allowed(test, grid, location, candidates),
{
    lemma_borrowed_rule(test, grid);
    assert forall|candidate: (T, u32)|
        denies(&test, grid, location, candidate) == denies(test, grid, location, candidate)
            && weighty(&test, grid, location, candidate) == weighty(
            test,
            grid,
            location,
            candidate,
        ) by {
        assert(permits(&test, grid, location)(candidate) == permits(test, grid, location)(
            candidate,
        ));
        assert(denies(&test, grid, location, candidate) == denies(test, grid, location, candidate));
        if weighty(&test, grid, location, candidate) {
            assert forall|given: u32| #[trigger]
                says(test, grid, location, candidate, (true, given)) implies given > 0 by {
                assert(says(&test, grid, location, candidate, (true, given)));
            }
        }
        if weighty(test, grid, location, candidate) {
            assert forall|given: u32| #[trigger]
                says(&test, grid, location, candidate, (true, given)) implies given > 0 by {
                assert(says(test, grid, location, candidate, (true, given)));
            }
        }
    }
    if drawable(&test, grid, location, candidates) {
        let candidate = choose|candidate: (T, u32)|
            candidates.contains(candidate) && !denies(&test, grid, location, candidate)
                && #[trigger] weighty(&test, grid, location, candidate);
        assert(weighty(test, grid, location, candidate));
    }
    if drawable(test, grid, location, candidates) {
        let candidate = choose|candidate: (T, u32)|
            candidates.contains(candidate) && !denies(test, grid, location, candidate)
                && #[trigger] weighty(test, grid, location, candidate);
        assert(weighty(&test, grid, location, candidate));
    }
    if answered(&test, grid, location, candidates) {
        assert forall|candidate: (T, u32)| candidates.contains(candidate) implies #[trigger] allows(
            test,
            grid,
            location,
            candidate,
        ) || denies(test, grid, location, candidate) by {
            assert(allows(&test, grid, location, candidate) || denies(
                &test,
                grid,
                location,
                candidate,
            ));
        }
    }
    if answered(test, grid, location, candidates) {
        assert forall|candidate: (T, u32)| candidates.contains(candidate) implies #[trigger] allows(
            &test,
            grid,
            location,
            candidate,
        ) || denies(&test, grid, location, candidate) by {
            assert(allows(test, grid, location, candidate) || denies(
                test,
                grid,
                location,
                candidate,
            ));
        }
    }
    if all_allowed(&test, grid, location, candidates) {
        assert forall|candidate: (T, u32)| candidates.contains(candidate) implies #[trigger] allows(
            test,
            grid,
            location,
            candidate,
        ) by {
            assert(allows(&test, grid, location, candidate));
        }
    }
    if all_allowed(test, grid, location, candidates) {
        assert forall|candidate: (T, u32)| candidates.contains(candidate) implies #[trigger] allows(
            &test,
            grid,
            location,
            candidate,
        ) by {
            assert(allows(test, grid, location, candidate));
        }
    }
}

/// Where the constraint has an answer to every candidate and says no to none, it says yes
/// to each.
pub proof fn lemma_all_allowed<T: PossibleValues, const D: usize, F: Fn(&Grid<T, D>, [usize; D], &T, u32) -> (bool, u32)>(
    test: F,
    grid: Grid<T, D>,
    location: [usize; D],
    candidates: Seq<(T, u32)>,
)
    requires
        answered(test, grid, location, candidates),
        candidates.filter(permits(test, grid, location)) == candidates,
    ensures
        all_allowed(test, grid, location, candidates),
{
    let keep = permits(test, grid, location);
    assert forall|candidate: (T, u32)| candidates.contains(candidate) implies #[trigger] allows(
        test,
        grid,
        location,
        candidate,
    ) by {
        let i = choose|i: int| 0 <= i < candidates.len() && candidates[i] == candidate;
        candidates.lemma_filter_pred(keep, i);
        assert(keep(candidates[i]));
    }
}

/// The constraint leaves the undetermined pixel at `location` without a candidate.
pub open spec fn fails<T: PossibleValues, const D: usize, F: Fn(&Grid<T, D>, [usize; D], &T, u32) -> (bool, u32)>(
    test: F,
    grid: Grid<T, D>,
    location: [usize; D],
) -> bool {
    let pixel = grid.cell(coords(location@));
    pixel.determined is None && allowed(test, grid, location, pixel.possible).len() == 0
}

/// What one look at the pixel at `location` makes of it: a pixel that has taken its value
/// stays; any other keeps the candidates that the constraint allows, with the weights it
/// gives them, and takes the last one as its value if only one is left.
pub open spec fn swept<T: PossibleValues, const D: usize, F: Fn(&Grid<T, D>, [usize; D], &T, u32) -> (bool, u32)>(
    test: F,
    grid: Grid<T, D>,
    location: [usize; D],
) -> PixelView<T> {
    let pixel = grid.cell(coords(location@));
    let kept = allowed(test, grid, location, pixel.possible);
    if pixel.determined is Some {
        pixel
    } else if kept.len() == 1 {
        PixelView::of(kept[0].0)
    } else {
        PixelView { possible: kept, determined: None }
    }
}

/// The grid is at rest under the constraint: one look at any of its pixels neither fails
/// nor changes it.
pub open spec fn at_rest<T: PossibleValues, const D: usize, F: Fn(&Grid<T, D>, [usize; D], &T, u32) -> (bool, u32)>(
    test: F,
    grid: Grid<T, D>,
) -> bool {
    forall|location: [usize; D]| #[trigger]
        grid.has(location) ==> !fails(test, grid, location) && swept(test, grid, location)
            == grid.cell(coords(location@))
}

/// The two grids hold the same pixels within `reach` of `center`.
pub open spec fn same_around<T: PossibleValues, const D: usize>(
    one: Grid<T, D>,
    other: Grid<T, D>,
    center: Seq<int>,
    reach: int,
) -> bool {
    forall|place: Seq<int>|
        near(one.dims(), center, reach, place) ==> #[trigger] one.cell(place) == other.cell(place)
}

/// `test` looks no further than `reach` cells: of two grids of one size that hold the same
/// pixels within `reach` of a cell, it cannot say yes at that cell of the one and no at that
/// cell of the other.
pub open spec fn is_local<T: PossibleValues, const D: usize, F: Fn(&Grid<T, D>, [usize; D], &T, u32) -> (bool, u32)>(
    test: F,
    reach: int,
) -> bool {
    forall|
        one: &Grid<T, D>,
        other: &Grid<T, D>,
        location: [usize; D],
        value: &T,
        weight: u32,
        yes: u32,
        no: u32,
    |
        one.wf() && other.wf() && one.size == other.size && one.has(location) && same_around(
            *one,
            *other,
            coords(location@),
            reach,
        ) ==> !(#[trigger] call_ensures(test, (one, location, value, weight), (true, yes))
            && #[trigger] call_ensures(test, (other, location, value, weight), (false, no)))
}

/// The pixel at `location` was looked at: `test` said yes to each of its candidates there, in
/// a grid that held the pixels that `grid` holds within `reach` of `location`.
pub open spec fn backed<T: PossibleValues, const D: usize, F: Fn(&Grid<T, D>, [usize; D], &T, u32) -> (bool, u32)>(
    test: F,
    grid: Grid<T, D>,
    location: [usize; D],
    reach: int,
) -> bool {
    exists|seen: Grid<T, D>|
        {
            &&& seen.wf()
            &&& seen.size == grid.size
            &&& #[trigger] same_around(seen, grid, coords(location@), reach)
            &&& all_allowed(test, seen, location, grid.cell(coords(location@)).possible)
        }
}

/// `test` can say yes to each of `candidates` at `location` of `grid`.
pub open spec fn all_allowed<T: PossibleValues, const D: usize, F: Fn(&Grid<T, D>, [usize; D], &T, u32) -> (bool, u32)>(
    test: F,
    grid: Grid<T, D>,
    location: [usize; D],
    candidates: Seq<(T, u32)>,
) -> bool {
    forall|candidate: (T, u32)|
        candidates.contains(candidate) ==> #[trigger] allows(test, grid, location, candidate)
}

/// Every pixel that has taken a value is backed, but for those at the locations `exempt`.
pub open spec fn guarded<T: PossibleValues, const D: usize, F: Fn(&Grid<T, D>, [usize; D], &T, u32) -> (bool, u32)>(
    test: F,
    grid: Grid<T, D>,
    exempt: Set<[usize; D]>,
    reach: int,
) -> bool {
    forall|location: [usize; D]| #[trigger]
        grid.has(location) ==> {
            ||| exempt.contains(location)
            ||| grid.cell(coords(location@)).determined is None
            ||| backed(test, grid, location, reach)
        }
}

/// What holds of a constraint holds of the borrowed constraint.
pub proof fn lemma_borrowed_guard<T: PossibleValues, const D: usize, F: Fn(&Grid<T, D>, [usize; D], &T, u32) -> (bool, u32)>(
    test: F,
    grid: Grid<T, D>,
    exempt: Set<[usize; D]>,
    reach: int,
)
    ensures
        guarded(&test, grid, exempt, reach) == guarded(test, grid, exempt, reach),
        forall|location: [usize; D]| #[trigger]
            backed(&test, grid, location, reach) == backed(test, grid, location, reach),
{
    assert forall|location: [usize; D]| #[trigger]
        backed(&test, grid, location, reach) == backed(test, grid, location, reach) by {
        let list = grid.cell(coords(location@)).possible;
        if backed(&test, grid, location, reach) {
            let seen = choose|seen: Grid<T, D>|
                {
                    &&& seen.wf()
                    &&& seen.size == grid.size
                    &&& #[trigger] same_around(seen, grid, coords(location@), reach)
                    &&& all_allowed(&test, seen, location, list)
                };
            lemma_borrowed_rule(test, seen);
            assert(all_allowed(test, seen, location, list)) by {
                assert forall|candidate: (T, u32)| list.contains(candidate) implies #[trigger] allows(
                    test,
                    seen,
                    location,
                    candidate,
                ) by {
                    assert(allows(&test, seen, location, candidate));
                }
            }
        }
        if backed(test, grid, location, reach) {
            let seen = choose|seen: Grid<T, D>|
                {
                    &&& seen.wf()
                    &&& seen.size == grid.size
                    &&& #[trigger] same_around(seen, grid, coords(location@), reach)
                    &&& all_allowed(test, seen, location, list)
                };
            lemma_borrowed_rule(test, seen);
            assert(all_allowed(&test, seen, location, list)) by {
                assert forall|candidate: (T, u32)| list.contains(candidate) implies #[trigger] allows(
                    &test,
                    seen,
                    location,
                    candidate,
                ) by {
                    assert(allows(test, seen, location, candidate));
                }
            }
        }
    }
    if guarded(&test, grid, exempt, reach) {
        assert forall|location: [usize; D]| #[trigger] grid.has(location) implies {
            ||| exempt.contains(location)
            ||| grid.cell(coords(location@)).determined is None
            ||| backed(test, grid, location, reach)
        } by {
            assert(backed(&test, grid, location, reach) == backed(test, grid, location, reach));
        }
    }
    if guarded(test, grid, exempt, reach) {
        assert forall|location: [usize; D]| #[trigger] grid.has(location) implies {
            ||| exempt.contains(location)
            ||| grid.cell(coords(location@)).determined is None
            ||| backed(&test, grid, location, reach)
        } by {
            assert(backed(&test, grid, location, reach) == backed(test, grid, location, reach));
        }
    }
}

/// A constraint that looks no further than `reach` cells cannot say no to a candidate of a
/// pixel that is backed.
pub proof fn lemma_backed_stands<T: PossibleValues, const D: usize, F: Fn(&Grid<T, D>, [usize; D], &T, u32) -> (bool, u32)>(
    test: F,
    grid: Grid<T, D>,
    location: [usize; D],
    reach: int,
)
    requires
        is_local(test, reach),
        grid.wf(),
        grid.has(location),
        backed(test, grid, location, reach),
    ensures
        forall|candidate: (T, u32)|
            grid.cell(coords(location@)).possible.contains(candidate) ==> !#[trigger] denies(
                test,
                grid,
                location,
                candidate,
            ),
{
    let list = grid.cell(coords(location@)).possible;
    let seen = choose|seen: Grid<T, D>|
        {
            &&& seen.wf()
            &&& seen.size == grid.size
            &&& #[trigger] same_around(seen, grid, coords(location@), reach)
            &&& all_allowed(test, seen, location, list)
        };
    assert forall|candidate: (T, u32)| list.contains(candidate) implies !#[trigger] denies(
        test,
        grid,
        location,
        candidate,
    ) by {
        assert(allows(test, seen, location, candidate));
        let value = candidate.0;
        let yes = choose|yes: u32| #[trigger] says(test, seen, location, candidate, (true, yes));
        assert(call_ensures(test, (&seen, location, &value, candidate.1), (true, yes)));
        if denies(test, grid, location, candidate) {
            let no = choose|no: u32| #[trigger] says(test, grid, location, candidate, (false, no));
            assert(call_ensures(test, (&grid, location, &value, candidate.1), (false, no)));
            assert(false);
        }
    }
}

/// A pixel stays backed while the grid stays as it is within `reach` of it.
pub proof fn lemma_backed_stays<T: PossibleValues, const D: usize, F: Fn(&Grid<T, D>, [usize; D], &T, u32) -> (bool, u32)>(
    test: F,
    one: Grid<T, D>,
    other: Grid<T, D>,
    location: [usize; D],
    reach: int,
)
    requires
        one.wf(),
        one.size == other.size,
        one.has(location),
        reach >= 0,
        backed(test, one, location, reach),
        same_around(one, other, coords(location@), reach),
    ensures
        backed(test, other, location, reach),
{
    let center = coords(location@);
    let list = one.cell(center).possible;
    let seen = choose|seen: Grid<T, D>|
        {
            &&& seen.wf()
            &&& seen.size == one.size
            &&& #[trigger] same_around(seen, one, center, reach)
            &&& all_allowed(test, seen, location, list)
        };
    lemma_near_self(one.dims(), center, reach);
    assert(one.cell(center) == other.cell(center));
    assert(same_around(seen, other, center, reach)) by {
        assert forall|place: Seq<int>| near(seen.dims(), center, reach, place) implies #[trigger] seen.cell(
            place,
        ) == other.cell(place) by {
            assert(seen.cell(place) == one.cell(place));
            assert(one.cell(place) == other.cell(place));
        }
    }
}

/// Two grids with one view are guarded alike.
pub proof fn lemma_guarded_by_view<T: PossibleValues, const D: usize, F: Fn(&Grid<T, D>, [usize; D], &T, u32) -> (bool, u32)>(
    test: F,
    one: Grid<T, D>,
    other: Grid<T, D>,
    exempt: Set<[usize; D]>,
    reach: int,
)
    requires
        one.wf(),
        one@ == other@,
        one.size == other.size,
        reach >= 0,
        guarded(test, one, exempt, reach),
    ensures
        guarded(test, other, exempt, reach),
{
    let dims = one.dims();
    assert(other.dims() == dims);
    assert(one@.cells.len() == other@.cells.len());
    assert(other@.cells.len() == other.data@.len());
    assert forall|place: Seq<int>| within(dims, place) implies one.cell(place) == other.cell(
        place,
    ) by {
        let i = offset(dims, place);
        lemma_offset_in_volume(dims, place);
        assert(one@.cells[i] == one.data@[i]@);
        assert(other@.cells[i] == other.data@[i]@);
    }
    assert forall|location: [usize; D]| #[trigger] other.has(location) implies {
        ||| exempt.contains(location)
        ||| other.cell(coords(location@)).determined is None
        ||| backed(test, other, location, reach)
    } by {
        assert(one.has(location));
        if backed(test, one, location, reach) {
            assert(same_around(one, other, coords(location@), reach));
            lemma_backed_stays(test, one, other, location, reach);
        }
    }
}

} // verus!
