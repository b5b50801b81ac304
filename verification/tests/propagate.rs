use microwfc::{Grid, Pixel, PossibleValues};
use rand::rngs::StdRng;
use rand::SeedableRng;
use std::cell::RefCell;

#[derive(Clone, Copy, PartialEq, Eq, Debug)]
enum Side {
    A,
    B,
}

impl PossibleValues for Side {
    fn get_possible_values() -> Vec<(Self, u32)> {
        vec![(Side::A, 1), (Side::B, 1)]
    }
}

/// `A` never next to `B`, corners included. A cell that has not taken a value says nothing.
fn apart(grid: &Grid<Side, 2>, location: [usize; 2], side: &Side, weight: u32) -> (bool, u32) {
    let clash = grid.neighbors(location, 1).iter().any(|near| match near.1.determined_value {
        Some(other) => other != *side,
        None => false,
    });
    (!clash, weight)
}

fn anything(_: &Grid<Side, 2>, _: [usize; 2], _: &Side, weight: u32) -> (bool, u32) {
    (true, weight)
}

fn nothing(_: &Grid<Side, 2>, _: [usize; 2], _: &Side, weight: u32) -> (bool, u32) {
    (false, weight)
}

fn only_a_in_the_first_column(
    _: &Grid<Side, 2>,
    location: [usize; 2],
    side: &Side,
    weight: u32,
) -> (bool, u32) {
    (location[0] != 0 || *side == Side::A, weight)
}

fn lengths(grid: &Grid<Side, 2>) -> Vec<usize> {
    grid.data.iter().map(|pixel| pixel.possible_values.len()).collect()
}

fn values(grid: &Grid<Side, 2>) -> Vec<Option<Side>> {
    grid.data.iter().map(|pixel| pixel.determined_value).collect()
}

#[test]
fn check_validity_accepts_a_fresh_grid() {
    let mut grid: Grid<Side, 2> = Grid::new([3, 3]).unwrap();
    assert_eq!(grid.check_validity(apart), Ok(()));
    assert_eq!(lengths(&grid), vec![2; 9]);
    assert_eq!(values(&grid), vec![None; 9]);
}

#[test]
fn check_validity_twice_changes_nothing() {
    let mut grid: Grid<Side, 2> = Grid::new([3, 2]).unwrap();
    grid.set_item([1, 1], Pixel::new(Side::B));
    assert_eq!(grid.check_validity(anything), Ok(()));
    let once = (lengths(&grid), values(&grid));
    assert_eq!(grid.check_validity(anything), Ok(()));
    assert_eq!((lengths(&grid), values(&grid)), once);
    assert_eq!(values(&grid)[4], Some(Side::B));
}

#[test]
fn check_validity_narrows_and_settles() {
    let mut grid: Grid<Side, 2> = Grid::new([2, 2]).unwrap();
    assert_eq!(grid.check_validity(only_a_in_the_first_column), Ok(()));
    assert_eq!(values(&grid), vec![Some(Side::A), None, Some(Side::A), None]);
    assert_eq!(lengths(&grid), vec![1, 2, 1, 2]);
}

#[test]
fn check_validity_looks_at_the_grid_as_it_was() {
    let mut grid: Grid<Side, 2> = Grid::new([2, 1]).unwrap();
    let rule = |grid: &Grid<Side, 2>, location: [usize; 2], side: &Side, weight: u32| {
        let allowed = only_a_in_the_first_column(grid, location, side, weight).0
            && apart(grid, location, side, weight).0;
        (allowed, weight)
    };
    assert_eq!(grid.check_validity(rule), Ok(()));
    assert_eq!(values(&grid), vec![Some(Side::A), None]);
    assert_eq!(lengths(&grid), vec![1, 2]);
    assert_eq!(grid.check_validity(rule), Ok(()));
    assert_eq!(values(&grid), vec![Some(Side::A), Some(Side::A)]);
}

#[test]
fn check_validity_returns_the_first_cell_without_a_candidate() {
    let mut grid: Grid<Side, 2> = Grid::new([2, 2]).unwrap();
    grid.set_item([0, 0], Pixel::new(Side::A));
    grid.set_item([1, 0], Pixel::new(Side::B));
    assert_eq!(grid.check_validity(apart), Err([0, 1]));
    assert_eq!(lengths(&grid), vec![1, 1, 2, 2]);
    assert_eq!(values(&grid), vec![Some(Side::A), Some(Side::B), None, None]);
    let mut empty: Grid<Side, 2> = Grid::new([2, 2]).unwrap();
    assert_eq!(empty.check_validity(nothing), Err([0, 0]));
    assert_eq!(lengths(&empty), vec![2; 4]);
}

#[test]
fn check_validity_skips_the_cells_that_have_taken_a_value() {
    let mut grid: Grid<Side, 2> = Grid::new([1, 1]).unwrap();
    grid.set_item([0, 0], Pixel::new(Side::B));
    assert_eq!(grid.check_validity(nothing), Ok(()));
    assert_eq!(values(&grid), vec![Some(Side::B)]);
}

#[test]
fn collapse_settles_the_given_cell() {
    for seed in 0..16 {
        let mut rng = StdRng::seed_from_u64(seed);
        let mut grid: Grid<Side, 2> = Grid::new([3, 3]).unwrap();
        let pixel = grid.get_item([1, 1]);
        assert_eq!(grid.collapse(anything, 1, &mut rng, ([1, 1], pixel)), Ok(()));
        let mut expected = vec![2; 9];
        expected[4] = 1;
        assert_eq!(lengths(&grid), expected);
        assert!(values(&grid)[4].is_some());
    }
}

#[test]
fn collapse_carries_the_choice_to_the_cells_around() {
    let mut rng = StdRng::seed_from_u64(5);
    let mut grid: Grid<Side, 2> = Grid::new([5, 1]).unwrap();
    let pixel = grid.get_item([0, 0]);
    assert_eq!(grid.collapse(apart, 1, &mut rng, ([0, 0], pixel)), Ok(()));
    let picked = values(&grid)[0].unwrap();
    assert_eq!(values(&grid), vec![Some(picked); 5]);
    assert_eq!(lengths(&grid), vec![1; 5]);
}

#[test]
fn collapse_never_widens_a_cell() {
    for seed in 0..16 {
        let mut rng = StdRng::seed_from_u64(seed);
        let mut grid: Grid<Side, 2> = Grid::new([4, 4]).unwrap();
        grid.set_item([3, 3], Pixel::new(Side::B));
        let before = lengths(&grid);
        let pixel = grid.get_item([0, 0]);
        let _ = grid.collapse(apart, 1, &mut rng, ([0, 0], pixel));
        for (after, before) in lengths(&grid).iter().zip(before.iter()) {
            assert!(after <= before);
            assert!(*after > 0);
        }
    }
}

#[test]
fn collapse_reports_the_given_cell_if_nothing_is_allowed_there() {
    let mut rng = StdRng::seed_from_u64(7);
    let mut grid: Grid<Side, 2> = Grid::new([2, 2]).unwrap();
    let pixel = grid.get_item([1, 0]);
    assert_eq!(grid.collapse(nothing, 1, &mut rng, ([1, 0], pixel)), Err([1, 0]));
    assert_eq!(lengths(&grid), vec![2; 4]);
}

#[test]
fn collapse_of_a_settled_pixel_does_nothing() {
    let mut rng = StdRng::seed_from_u64(8);
    let mut grid: Grid<Side, 2> = Grid::new([2, 2]).unwrap();
    assert_eq!(grid.collapse(apart, 1, &mut rng, ([0, 0], Pixel::new(Side::A))), Ok(()));
    assert_eq!(lengths(&grid), vec![2; 4]);
    assert_eq!(values(&grid), vec![None; 4]);
}

#[test]
fn second_pick_against_the_first_is_a_contradiction() {
    let mut rng = StdRng::seed_from_u64(9);
    let mut grid: Grid<Side, 2> = Grid::new([2, 2]).unwrap();
    grid.set_item([0, 0], Pixel::new(Side::A));
    assert_eq!(grid.collapse(apart, 1, &mut rng, ([1, 1], Pixel::new(Side::B))), Err([1, 1]));
    assert_eq!(values(&grid), vec![Some(Side::A), None, None, None]);
}

#[test]
fn collapse_reports_the_cell_that_propagation_emptied() {
    let mut rng = StdRng::seed_from_u64(10);
    let mut grid: Grid<Side, 2> = Grid::new([3, 1]).unwrap();
    grid.set_item([2, 0], Pixel::new(Side::B));
    assert_eq!(grid.collapse(apart, 1, &mut rng, ([0, 0], Pixel::new(Side::A))), Ok(()));
    let mut open: Pixel<Side> = Pixel::default();
    open.possible_values = vec![(Side::A, 1), (Side::A, 5)];
    assert_eq!(grid.collapse(apart, 1, &mut rng, ([0, 0], open)), Err([1, 0]));
    assert_eq!(values(&grid), vec![Some(Side::A), None, Some(Side::B)]);
}

#[test]
fn collapse_looks_at_the_cells_around_in_random_order() {
    let natural: Vec<[usize; 2]> =
        vec![[0, 0], [1, 0], [2, 0], [0, 1], [1, 1], [2, 1], [0, 2], [1, 2], [2, 2]];
    let mut shuffled = 0;
    for seed in 0..8 {
        let mut rng = StdRng::seed_from_u64(seed);
        let mut grid: Grid<Side, 2> = Grid::new([3, 3]).unwrap();
        let asked: RefCell<Vec<[usize; 2]>> = RefCell::new(Vec::new());
        let watching = |_: &Grid<Side, 2>, location: [usize; 2], _: &Side, weight: u32| {
            asked.borrow_mut().push(location);
            (true, weight)
        };
        let pixel = grid.get_item([1, 1]);
        assert_eq!(grid.collapse(watching, 1, &mut rng, ([1, 1], pixel)), Ok(()));
        let asked = asked.into_inner();
        assert_eq!(asked[..2], [[1, 1], [1, 1]]);
        let mut visited = asked[2..].to_vec();
        visited.dedup();
        let mut sorted = visited.clone();
        sorted.sort_by_key(|location| (location[1], location[0]));
        assert_eq!(sorted, natural);
        if visited != natural {
            shuffled += 1;
        }
    }
    assert!(shuffled > 0);
}

#[test]
fn check_validity_keeps_the_weights_that_the_constraint_gives() {
    let mut grid: Grid<Side, 2> = Grid::new([2, 1]).unwrap();
    grid.set_item([1, 0], Pixel::new(Side::B));
    let by_side = |_: &Grid<Side, 2>, _: [usize; 2], side: &Side, weight: u32| {
        (true, if *side == Side::A { 7 } else { weight })
    };
    assert_eq!(grid.check_validity(by_side), Ok(()));
    assert_eq!(grid.get_item([0, 0]).possible_values, vec![(Side::A, 7), (Side::B, 1)]);
    assert_eq!(grid.get_item([1, 0]).possible_values, vec![(Side::B, 1)]);
}

#[test]
fn collapse_writes_back_the_weights_of_a_pixel_that_lost_a_candidate() {
    let mut rng = StdRng::seed_from_u64(11);
    let mut grid: Grid<Side, 2> = Grid::new([3, 1]).unwrap();
    let mut wide: Pixel<Side> = Pixel::default();
    wide.possible_values = vec![(Side::A, 1), (Side::B, 1), (Side::B, 1)];
    grid.set_item([1, 0], wide.clone());
    grid.set_item([2, 0], wide);
    let rule = |grid: &Grid<Side, 2>, location: [usize; 2], side: &Side, weight: u32| {
        let first = grid.get_item([0, 0]).determined_value;
        if location[0] == 1 {
            (first.is_none() || *side == Side::B, weight + 10)
        } else {
            (true, weight + 10)
        }
    };
    let pixel = grid.get_item([0, 0]);
    assert_eq!(grid.collapse(rule, 1, &mut rng, ([0, 0], pixel)), Ok(()));
    assert!(grid.get_item([0, 0]).determined_value.is_some());
    assert_eq!(grid.get_item([1, 0]).possible_values, vec![(Side::B, 11), (Side::B, 11)]);
    assert_eq!(
        grid.get_item([2, 0]).possible_values,
        vec![(Side::A, 1), (Side::B, 1), (Side::B, 1)]
    );
}

#[test]
fn collapse_without_reach_changes_the_given_cell_only() {
    for seed in 0..8 {
        let mut rng = StdRng::seed_from_u64(seed);
        let mut grid: Grid<Side, 2> = Grid::new([3, 3]).unwrap();
        grid.set_item([0, 1], Pixel::new(Side::B));
        let pixel = grid.get_item([1, 1]);
        let _ = grid.collapse(apart, 0, &mut rng, ([1, 1], pixel));
        for y in 0..3 {
            for x in 0..3 {
                let pixel = grid.get_item([x, y]);
                if [x, y] == [0, 1] {
                    assert_eq!(pixel.possible_values, vec![(Side::B, 1)]);
                } else if [x, y] != [1, 1] {
                    assert_eq!(pixel.possible_values, vec![(Side::A, 1), (Side::B, 1)]);
                    assert_eq!(pixel.determined_value, None);
                }
            }
        }
    }
}

#[test]
fn collapse_under_a_constraint_that_allows_everything_changes_the_given_cell_only() {
    for seed in 0..8 {
        let mut rng = StdRng::seed_from_u64(seed);
        let mut grid: Grid<Side, 2> = Grid::new([3, 3]).unwrap();
        grid.set_item([2, 2], Pixel::new(Side::A));
        let pixel = grid.get_item([1, 1]);
        assert_eq!(grid.collapse(anything, 2, &mut rng, ([1, 1], pixel)), Ok(()));
        assert!(grid.get_item([1, 1]).determined_value.is_some());
        assert_eq!(values(&grid).iter().filter(|value| value.is_some()).count(), 2);
        assert_eq!(lengths(&grid), vec![2, 2, 2, 2, 1, 2, 2, 2, 1]);
    }
}

#[test]
fn collapse_fails_only_at_the_given_cell_or_within_reach_of_a_change() {
    for seed in 0..16 {
        let mut rng = StdRng::seed_from_u64(seed);
        let mut grid: Grid<Side, 2> = Grid::new([5, 1]).unwrap();
        grid.set_item([4, 0], Pixel::new(Side::B));
        let pixel = grid.get_item([0, 0]);
        match grid.collapse(apart, 1, &mut rng, ([0, 0], pixel)) {
            Ok(()) => assert_eq!(values(&grid), vec![Some(Side::B); 5]),
            Err(at) => {
                assert_eq!(at, [3, 0]);
                assert_eq!(values(&grid)[..3], [Some(Side::A); 3]);
            },
        }
    }
}

#[test]
fn collapse_never_settles_the_given_cell_on_a_value_of_weight_zero() {
    let no_b = |_: &Grid<Side, 2>, _: [usize; 2], side: &Side, weight: u32| {
        (true, if *side == Side::B { 0 } else { weight })
    };
    for seed in 0..64 {
        let mut rng = StdRng::seed_from_u64(seed);
        let mut grid: Grid<Side, 2> = Grid::new([2, 2]).unwrap();
        let pixel = grid.get_item([1, 1]);
        assert_eq!(grid.collapse(no_b, 1, &mut rng, ([1, 1], pixel)), Ok(()));
        assert_eq!(grid.get_item([1, 1]).determined_value, Some(Side::A));
        assert_eq!(grid.get_item([1, 1]).possible_values, vec![(Side::A, 1)]);
    }
}
