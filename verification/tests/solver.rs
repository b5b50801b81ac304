use microwfc::{Chance, Grid, Pixel, PossibleValues, Round};
use rand::rngs::StdRng;
use rand::SeedableRng;
use std::cell::Cell;

#[derive(Clone, Copy, PartialEq, Eq, Debug)]
enum Ground {
    Stone,
    Dirt,
    Grass,
}

impl PossibleValues for Ground {
    fn get_possible_values() -> Vec<(Self, u32)> {
        vec![(Ground::Grass, 4), (Ground::Dirt, 1), (Ground::Stone, 3)]
    }
}

#[derive(Clone, Copy, PartialEq, Eq, Debug)]
struct Only;

impl PossibleValues for Only {
    fn get_possible_values() -> Vec<(Self, u32)> {
        vec![(Only, 5)]
    }
}

#[derive(Clone, Copy, PartialEq, Eq, Debug)]
enum Side {
    A,
    B,
}

impl PossibleValues for Side {
    fn get_possible_values() -> Vec<(Self, u32)> {
        vec![(Side::A, 1), (Side::A, 1), (Side::B, 1)]
    }
}

#[derive(Clone, Copy, PartialEq, Eq, Debug)]
struct Nothing;

impl PossibleValues for Nothing {
    fn get_possible_values() -> Vec<(Self, u32)> {
        Vec::new()
    }
}

/// No stone beside grass, faces only. A cell that has not taken a value says nothing.
fn terrain(
    grid: &Grid<Ground, 2>,
    location: [usize; 2],
    ground: &Ground,
    weight: u32,
) -> (bool, u32) {
    let beside = |other: Ground| {
        grid.unidirectional_neighbors(location)
            .iter()
            .any(|near| near.1.determined_value == Some(other))
    };
    let allowed = match *ground {
        Ground::Stone => !beside(Ground::Grass),
        Ground::Dirt => true,
        Ground::Grass => !beside(Ground::Stone),
    };
    (allowed, weight)
}

fn apart(grid: &Grid<Side, 2>, location: [usize; 2], side: &Side, weight: u32) -> (bool, u32) {
    let clash = grid.neighbors(location, 1).iter().any(|near| match near.1.determined_value {
        Some(other) => other != *side,
        None => false,
    });
    (!clash, weight)
}

fn free<T: PossibleValues, const D: usize>(
    _: &Grid<T, D>,
    _: [usize; D],
    _: &T,
    weight: u32,
) -> (bool, u32) {
    (true, weight)
}

fn settled<T: PossibleValues, const D: usize>(grid: &Grid<T, D>) -> usize {
    grid.data.iter().filter(|pixel| pixel.determined_value.is_some()).count()
}

fn values<T: PossibleValues, const D: usize>(grid: &Grid<T, D>) -> Vec<Option<T>> {
    grid.data.iter().map(|pixel| pixel.determined_value).collect()
}

#[test]
fn chance_is_a_probability() {
    assert!(Chance::new(0, 1).is_some());
    assert!(Chance::new(1, 20).is_some());
    assert!(Chance::new(7, 7).is_some());
    assert!(Chance::new(0, 0).is_none());
    assert!(Chance::new(3, 2).is_none());
    let chance = Chance::new(1, 20).unwrap();
    assert_eq!((chance.numerator, chance.denominator), (1, 20));
    assert_eq!(Chance::never().numerator, 0);
    assert!(Chance::never().denominator > 0);
    assert_eq!(Chance::always().numerator, Chance::always().denominator);
}

#[test]
fn one_cell_with_one_value_is_settled_without_a_round() {
    let mut rng = StdRng::seed_from_u64(1);
    let mut grid: Grid<Only, 2> = Grid::new([1, 1]).unwrap();
    let rounds = Cell::new(0);
    let solved = grid.wfc(
        free,
        1,
        &mut rng,
        Chance::never(),
        |_: &Grid<Only, 2>| rounds.set(rounds.get() + 1),
        usize::MAX,
    );
    assert_eq!(solved, Ok(true));
    assert_eq!(rounds.get(), 0);
    let pixel = grid.get_item([0, 0]);
    assert_eq!(pixel.determined_value, Some(Only));
    assert_eq!(pixel.possible_values, vec![(Only, 1)]);
}

#[test]
fn two_values_that_must_stay_apart_fill_a_small_grid_with_one_of_them() {
    for seed in 0..16 {
        let mut rng = StdRng::seed_from_u64(seed);
        let mut grid: Grid<Side, 2> = Grid::new([2, 2]).unwrap();
        let solved = grid.wfc(apart, 1, &mut rng, Chance::never(), |_: &Grid<Side, 2>| (), 100);
        assert_eq!(solved, Ok(true));
        let first = grid.get_item([0, 0]).determined_value.unwrap();
        assert_eq!(values(&grid), vec![Some(first); 4]);
    }
}

#[test]
fn two_values_that_must_stay_apart_cannot_both_be_picked() {
    let mut grid: Grid<Side, 2> = Grid::new([2, 2]).unwrap();
    grid.set_item([0, 0], Pixel::new(Side::A));
    grid.set_item([1, 1], Pixel::new(Side::B));
    let mut rng = StdRng::seed_from_u64(2);
    let before = values(&grid);
    let solved = grid.wfc(apart, 1, &mut rng, Chance::never(), |_: &Grid<Side, 2>| (), 100);
    assert_eq!(solved, Err([1, 0]));
    assert_eq!(values(&grid), before);
}

#[test]
fn every_round_settles_one_cell_when_all_is_allowed() {
    for (numerator, denominator) in [(0, 1), (1, 1), (1, 2), (1, 20)] {
        let chance = Chance::new(numerator, denominator).unwrap();
        let mut rng = StdRng::seed_from_u64(3);
        let mut grid: Grid<Ground, 2> = Grid::new([3, 3]).unwrap();
        assert_eq!(grid.check_validity(free), Ok(()));
        for round in 1..=9 {
            match grid.wfc_round(free, 1, &mut rng, chance) {
                Round::Collapsed { seed } => {
                    assert!(grid.get_item(seed).determined_value.is_some());
                },
                other => panic!("round {} gave {:?}", round, other),
            }
            assert_eq!(settled(&grid), round);
        }
        assert!(matches!(grid.wfc_round(free, 1, &mut rng, chance), Round::Finished));
        assert!(grid.is_complete());
    }
}

#[test]
fn observer_sees_the_grid_after_every_round() {
    let mut rng = StdRng::seed_from_u64(4);
    let mut grid: Grid<Ground, 2> = Grid::new([3, 3]).unwrap();
    let seen: Cell<usize> = Cell::new(0);
    let solved = grid.wfc(
        free,
        1,
        &mut rng,
        Chance::new(1, 2).unwrap(),
        |grid: &Grid<Ground, 2>| {
            seen.set(seen.get() + 1);
            assert_eq!(settled(grid), seen.get());
        },
        usize::MAX,
    );
    assert_eq!(solved, Ok(true));
    assert_eq!(seen.get(), 9);
}

#[test]
fn picking_anywhere_every_time_still_ends() {
    let mut rng = StdRng::seed_from_u64(5);
    let mut grid: Grid<Ground, 3> = Grid::new([3, 2, 2]).unwrap();
    let solved = grid.wfc(
        free,
        1,
        &mut rng,
        Chance::always(),
        |_: &Grid<Ground, 3>| (),
        usize::MAX,
    );
    assert_eq!(solved, Ok(true));
    assert_eq!(settled(&grid), 12);
}

#[test]
fn same_seed_gives_the_same_grid() {
    let run = |seed: u64| {
        let mut rng = StdRng::seed_from_u64(seed);
        let mut grid: Grid<Ground, 2> = Grid::new([8, 8]).unwrap();
        let solved = grid.wfc(
            terrain,
            1,
            &mut rng,
            Chance::new(1, 20).unwrap(),
            |_: &Grid<Ground, 2>| (),
            10_000,
        );
        (solved, values(&grid))
    };
    let mut different = false;
    for seed in 0..4 {
        assert_eq!(run(seed), run(seed));
        different |= run(seed) != run(seed + 100);
    }
    assert!(different);
}

#[test]
fn solved_grid_obeys_the_pixel_rules() {
    let mut rng = StdRng::seed_from_u64(6);
    let mut grid: Grid<Ground, 2> = Grid::new([6, 6]).unwrap();
    let solved =
        grid.wfc(terrain, 1, &mut rng, Chance::never(), |_: &Grid<Ground, 2>| (), 10_000);
    assert_eq!(solved, Ok(true));
    assert!(grid.is_complete());
    for pixel in grid.data.iter() {
        assert_eq!(pixel.possible_values, vec![(pixel.determined_value.unwrap(), 1)]);
    }
    for y in 0..6 {
        for x in 0..6 {
            let here = grid.get_item([x, y]).determined_value.unwrap();
            assert!(terrain(&grid, [x, y], &here, 1).0);
        }
    }
}

#[test]
fn wfc_stops_after_the_given_rounds() {
    let mut rng = StdRng::seed_from_u64(7);
    let mut grid: Grid<Ground, 2> = Grid::new([3, 3]).unwrap();
    let solved = grid.wfc(free, 1, &mut rng, Chance::never(), |_: &Grid<Ground, 2>| (), 4);
    assert_eq!(solved, Ok(false));
    assert_eq!(settled(&grid), 4);
    let solved = grid.wfc(free, 1, &mut rng, Chance::never(), |_: &Grid<Ground, 2>| (), 5);
    assert_eq!(solved, Ok(true));
    let solved = grid.wfc(free, 1, &mut rng, Chance::never(), |_: &Grid<Ground, 2>| (), 0);
    assert_eq!(solved, Ok(true));
}

#[test]
fn wfc_rejects_a_grid_whose_pixels_have_no_candidate() {
    let mut rng = StdRng::seed_from_u64(8);
    let mut grid: Grid<Nothing, 2> = Grid::new([2, 2]).unwrap();
    let solved = grid.wfc(
        free,
        1,
        &mut rng,
        Chance::never(),
        |_: &Grid<Nothing, 2>| (),
        10,
    );
    assert_eq!(solved, Err([0, 0]));
}

#[test]
fn round_on_a_finished_grid_does_nothing() {
    let mut rng = StdRng::seed_from_u64(9);
    let mut grid: Grid<Side, 2> = Grid::new([2, 1]).unwrap();
    grid.set_item([0, 0], Pixel::new(Side::A));
    grid.set_item([1, 0], Pixel::new(Side::B));
    assert!(matches!(grid.wfc_round(apart, 1, &mut rng, Chance::always()), Round::Finished));
    assert_eq!(values(&grid), vec![Some(Side::A), Some(Side::B)]);
}

#[test]
fn round_takes_the_grid_back_after_a_contradiction() {
    let mut collapsed = 0;
    let mut contradicted = 0;
    for seed in 0..32 {
        let mut rng = StdRng::seed_from_u64(seed);
        let mut grid: Grid<Side, 2> = Grid::new([3, 1]).unwrap();
        grid.set_item([2, 0], Pixel::new(Side::B));
        match grid.wfc_round(apart, 1, &mut rng, Chance::never()) {
            Round::Collapsed { seed } => {
                assert!(seed == [0, 0] || seed == [1, 0]);
                assert_eq!(values(&grid), vec![Some(Side::B); 3]);
                collapsed += 1;
            },
            Round::Contradiction { seed, at } => {
                assert_eq!(seed, [0, 0]);
                assert_eq!(at, [1, 0]);
                assert_eq!(values(&grid), vec![None, None, Some(Side::B)]);
                assert_eq!(grid.get_item([0, 0]).values(), vec![Side::A, Side::A, Side::B]);
                assert_eq!(grid.get_item([1, 0]).values(), vec![Side::A, Side::A, Side::B]);
                contradicted += 1;
            },
            Round::Finished => panic!("two cells were open"),
        }
    }
    assert!(collapsed > 0);
    assert!(contradicted > 0);
}

#[test]
fn round_picks_a_cell_of_least_entropy_unless_it_explores() {
    let narrow = || {
        let mut grid: Grid<Ground, 2> = Grid::new([3, 1]).unwrap();
        let mut pixel: Pixel<Ground> = Pixel::default();
        pixel.possible_values = vec![
            (Ground::Dirt, 1),
            (Ground::Dirt, 1),
            (Ground::Dirt, 1),
            (Ground::Dirt, 1),
            (Ground::Stone, 1),
        ];
        grid.set_item([1, 0], pixel);
        grid
    };
    let mut elsewhere = 0;
    for seed in 0..32 {
        let mut rng = StdRng::seed_from_u64(seed);
        let mut grid = narrow();
        match grid.wfc_round(free, 1, &mut rng, Chance::never()) {
            Round::Collapsed { seed } => assert_eq!(seed, [1, 0]),
            other => panic!("{:?}", other),
        }
        let mut grid = narrow();
        match grid.wfc_round(free, 1, &mut rng, Chance::always()) {
            Round::Collapsed { seed } => {
                if seed != [1, 0] {
                    elsewhere += 1;
                }
            },
            other => panic!("{:?}", other),
        }
    }
    assert!(elsewhere > 0);
}

#[test]
fn wfc_keeps_what_the_check_settled() {
    let mut rng = StdRng::seed_from_u64(12);
    let mut grid: Grid<Only, 2> = Grid::new([2, 2]).unwrap();
    let solved = grid.wfc(free, 1, &mut rng, Chance::always(), |_: &Grid<Only, 2>| (), 0);
    assert_eq!(solved, Ok(true));
    assert_eq!(values(&grid), vec![Some(Only); 4]);
}

#[test]
fn wfc_solves_in_as_many_rounds_as_there_are_cells_when_all_is_allowed() {
    for seed in 0..8 {
        let mut rng = StdRng::seed_from_u64(seed);
        let mut grid: Grid<Ground, 2> = Grid::new([4, 3]).unwrap();
        let solved =
            grid.wfc(free, 1, &mut rng, Chance::new(1, 3).unwrap(), |_: &Grid<Ground, 2>| (), 12);
        assert_eq!(solved, Ok(true));
    }
}

fn two_valued() -> Pixel<Ground> {
    let mut pixel: Pixel<Ground> = Pixel::default();
    pixel.possible_values =
        vec![(Ground::Dirt, 1), (Ground::Dirt, 1), (Ground::Dirt, 1), (Ground::Stone, 1)];
    pixel
}

#[test]
fn seed_pool_holds_every_open_cell_in_grid_order_when_exploring() {
    let mut grid: Grid<Ground, 2> = Grid::new([2, 2]).unwrap();
    grid.set_item([1, 0], Pixel::new(Ground::Dirt));
    grid.set_item([0, 1], two_valued());
    assert_eq!(grid.seed_pool(true), vec![[0, 0], [0, 1], [1, 1]]);
}

#[test]
fn seed_pool_holds_the_open_cells_of_least_entropy_when_not_exploring() {
    let mut grid: Grid<Ground, 2> = Grid::new([3, 2]).unwrap();
    grid.set_item([0, 0], Pixel::new(Ground::Grass));
    grid.set_item([1, 0], two_valued());
    grid.set_item([2, 1], two_valued());
    assert_eq!(grid.seed_pool(false), vec![[1, 0], [2, 1]]);
    assert_eq!(grid.seed_pool(true), vec![[1, 0], [2, 0], [0, 1], [1, 1], [2, 1]]);
}

#[test]
fn seed_pool_counts_values_not_candidates() {
    // Four candidates, two values: less entropy than three candidates of three values.
    let mut grid: Grid<Ground, 2> = Grid::new([2, 1]).unwrap();
    grid.set_item([1, 0], two_valued());
    assert_eq!(grid.seed_pool(false), vec![[1, 0]]);
}

#[test]
fn seed_pool_of_a_grid_without_open_cells_is_empty() {
    let mut grid: Grid<Ground, 2> = Grid::new([2, 1]).unwrap();
    grid.set_item([0, 0], Pixel::new(Ground::Stone));
    grid.set_item([1, 0], Pixel::new(Ground::Grass));
    assert_eq!(grid.seed_pool(true), Vec::<[usize; 2]>::new());
    assert_eq!(grid.seed_pool(false), Vec::<[usize; 2]>::new());
}

#[test]
fn round_never_settles_the_picked_cell_on_a_value_of_weight_zero() {
    let no_dirt = |_: &Grid<Ground, 2>, _: [usize; 2], ground: &Ground, weight: u32| {
        (true, if *ground == Ground::Dirt { 0 } else { weight })
    };
    let mut seen_grass = false;
    let mut seen_stone = false;
    for seed in 0..64 {
        let mut rng = StdRng::seed_from_u64(seed);
        let mut grid: Grid<Ground, 2> = Grid::new([1, 1]).unwrap();
        match grid.wfc_round(no_dirt, 1, &mut rng, Chance::never()) {
            Round::Collapsed { seed } => assert_eq!(seed, [0, 0]),
            other => panic!("{:?}", other),
        }
        let value = grid.get_item([0, 0]).determined_value.unwrap();
        assert!(value != Ground::Dirt);
        seen_grass |= value == Ground::Grass;
        seen_stone |= value == Ground::Stone;
    }
    assert!(seen_grass && seen_stone);
}

#[test]
fn wfc_settles_an_open_cell_or_leaves_the_grid_as_the_check_left_it() {
    let mut settled_one = 0;
    let mut left_as_checked = 0;
    for seed in 0..32 {
        let mut rng = StdRng::seed_from_u64(seed);
        let mut grid: Grid<Side, 2> = Grid::new([4, 1]).unwrap();
        grid.set_item([3, 0], Pixel::new(Side::B));
        let solved = grid.wfc(apart, 1, &mut rng, Chance::never(), |_: &Grid<Side, 2>| (), 1);
        if solved == Ok(true) {
            assert_eq!(values(&grid), vec![Some(Side::B); 4]);
            settled_one += 1;
        } else {
            // The check settles the third cell. The round took the first cell to `A`, which
            // left nothing for the second, and the grid was set back.
            assert_eq!(solved, Ok(false));
            assert_eq!(values(&grid), vec![None, None, Some(Side::B), Some(Side::B)]);
            assert_eq!(grid.get_item([0, 0]).values(), vec![Side::A, Side::A, Side::B]);
            assert_eq!(grid.get_item([1, 0]).values(), vec![Side::A, Side::A, Side::B]);
            left_as_checked += 1;
        }
    }
    assert!(settled_one > 0);
    assert!(left_as_checked > 0);
}
