use microwfc::{Grid, Pixel, PixelChangeResult, PossibleValues};
use rand::rngs::StdRng;
use rand::SeedableRng;

#[derive(Clone, Copy, PartialEq, Eq, Debug)]
enum Tile {
    Water,
    Dirt,
    Grass,
}

impl PossibleValues for Tile {
    fn get_possible_values() -> Vec<(Self, u32)> {
        vec![(Tile::Grass, 4), (Tile::Dirt, 1), (Tile::Water, 3)]
    }
}

fn grid() -> Grid<Tile, 2> {
    Grid::new([2, 2]).unwrap()
}

fn any(_: &Grid<Tile, 2>, _: [usize; 2], _: &Tile, weight: u32) -> (bool, u32) {
    (true, weight)
}

fn none(_: &Grid<Tile, 2>, _: [usize; 2], _: &Tile, weight: u32) -> (bool, u32) {
    (false, weight)
}

fn no_grass(_: &Grid<Tile, 2>, _: [usize; 2], tile: &Tile, weight: u32) -> (bool, u32) {
    (*tile != Tile::Grass, weight)
}

fn only_water(_: &Grid<Tile, 2>, _: [usize; 2], tile: &Tile, weight: u32) -> (bool, u32) {
    (*tile == Tile::Water, weight)
}

fn doubling(_: &Grid<Tile, 2>, _: [usize; 2], _: &Tile, weight: u32) -> (bool, u32) {
    (true, weight * 2)
}

#[test]
fn new_pixel_has_taken_its_value() {
    let pixel = Pixel::new(Tile::Dirt);
    assert_eq!(pixel.determined_value, Some(Tile::Dirt));
    assert_eq!(pixel.possible_values, vec![(Tile::Dirt, 1)]);
}

#[test]
fn default_pixel_may_take_every_value() {
    let pixel: Pixel<Tile> = Pixel::default();
    assert_eq!(pixel.determined_value, None);
    assert_eq!(pixel.possible_values, vec![(Tile::Grass, 4), (Tile::Dirt, 1), (Tile::Water, 3)]);
    assert_eq!(pixel.values(), vec![Tile::Grass, Tile::Dirt, Tile::Water]);
}

#[test]
fn clone_copies_the_pixel() {
    let mut pixel: Pixel<Tile> = Pixel::default();
    let copy = pixel.clone();
    pixel.possible_values.clear();
    assert_eq!(copy.possible_values, Tile::get_possible_values());
    assert_eq!(copy.determined_value, None);
    assert_eq!(Pixel::new(Tile::Water).clone().determined_value, Some(Tile::Water));
}

#[test]
fn well_formed_pixel_holds_its_value_as_its_only_candidate() {
    assert!(Pixel::new(Tile::Water).well_formed());
    assert!(Pixel::<Tile>::default().well_formed());
    let mut pixel = Pixel::new(Tile::Water);
    pixel.possible_values.push((Tile::Dirt, 1));
    assert!(!pixel.well_formed());
    pixel.possible_values = vec![(Tile::Dirt, 1)];
    assert!(!pixel.well_formed());
    pixel.possible_values = vec![(Tile::Water, 2)];
    assert!(!pixel.well_formed());
    pixel.possible_values = Vec::new();
    assert!(!pixel.well_formed());
    pixel.determined_value = None;
    assert!(pixel.well_formed());
}

#[test]
fn same_weights_compares_the_weights_one_by_one() {
    let pixel: Pixel<Tile> = Pixel::default();
    let mut other: Pixel<Tile> = Pixel::default();
    assert!(pixel.same_weights(&other));
    other.possible_values[2] = (Tile::Dirt, 3);
    assert!(pixel.same_weights(&other));
    other.possible_values[1].1 = 2;
    assert!(!pixel.same_weights(&other));
    other.possible_values[1].1 = 1;
    other.possible_values.pop();
    assert!(!pixel.same_weights(&other));
}

#[test]
fn recalc_without_a_change_reports_unchanged() {
    let mut pixel: Pixel<Tile> = Pixel::default();
    let result = pixel.recalc(&grid(), [0, 0], any, None);
    assert_eq!(result, PixelChangeResult::Unchanged);
    assert_eq!(pixel.possible_values, Tile::get_possible_values());
    assert_eq!(pixel.determined_value, None);
}

#[test]
fn recalc_stores_the_weights_that_the_constraint_gives() {
    let mut pixel: Pixel<Tile> = Pixel::default();
    let result = pixel.recalc(&grid(), [0, 0], doubling, None);
    assert_eq!(result, PixelChangeResult::Unchanged);
    assert_eq!(pixel.possible_values, vec![(Tile::Grass, 8), (Tile::Dirt, 2), (Tile::Water, 6)]);
    let by_place = |_: &Grid<Tile, 2>, location: [usize; 2], tile: &Tile, weight: u32| {
        (*tile != Tile::Dirt, weight + location[0] as u32)
    };
    let result = pixel.recalc(&grid(), [1, 0], by_place, None);
    assert_eq!(result, PixelChangeResult::Updated);
    assert_eq!(pixel.possible_values, vec![(Tile::Grass, 9), (Tile::Water, 7)]);
}

#[test]
fn recalc_drops_what_is_not_allowed_and_keeps_the_order() {
    let mut pixel: Pixel<Tile> = Pixel::default();
    let result = pixel.recalc(&grid(), [1, 0], no_grass, None);
    assert_eq!(result, PixelChangeResult::Updated);
    assert_eq!(pixel.possible_values, vec![(Tile::Dirt, 1), (Tile::Water, 3)]);
    assert_eq!(pixel.determined_value, None);
}

#[test]
fn recalc_settles_on_the_last_candidate() {
    let mut pixel: Pixel<Tile> = Pixel::default();
    let result = pixel.recalc(&grid(), [1, 1], only_water, None);
    assert_eq!(result, PixelChangeResult::Updated);
    assert_eq!(pixel.possible_values, vec![(Tile::Water, 1)]);
    assert_eq!(pixel.determined_value, Some(Tile::Water));
}

#[test]
fn recalc_reports_a_pixel_without_candidates_as_invalid() {
    let mut pixel: Pixel<Tile> = Pixel::default();
    assert_eq!(pixel.recalc(&grid(), [0, 1], none, None), PixelChangeResult::Invalid);
    assert!(pixel.possible_values.is_empty());
    let mut taken = Pixel::new(Tile::Grass);
    assert_eq!(taken.recalc(&grid(), [0, 1], no_grass, None), PixelChangeResult::Invalid);
    let mut forced: Pixel<Tile> = Pixel::default();
    let mut rng = StdRng::seed_from_u64(1);
    assert_eq!(forced.recalc(&grid(), [0, 1], none, Some(&mut rng)), PixelChangeResult::Invalid);
}

#[test]
fn recalc_leaves_a_settled_pixel_alone() {
    let mut pixel = Pixel::new(Tile::Dirt);
    let mut rng = StdRng::seed_from_u64(2);
    assert_eq!(pixel.recalc(&grid(), [0, 0], any, None), PixelChangeResult::Unchanged);
    assert_eq!(pixel.recalc(&grid(), [0, 0], no_grass, Some(&mut rng)), PixelChangeResult::Unchanged);
    assert_eq!(pixel.recalc(&grid(), [0, 0], doubling, None), PixelChangeResult::Unchanged);
    assert_eq!(pixel.possible_values, vec![(Tile::Dirt, 1)]);
    assert_eq!(pixel.determined_value, Some(Tile::Dirt));
}

#[test]
fn recalc_with_a_random_source_picks_an_allowed_candidate() {
    let mut seen_dirt = false;
    let mut seen_water = false;
    for seed in 0..64 {
        let mut rng = StdRng::seed_from_u64(seed);
        let mut pixel: Pixel<Tile> = Pixel::default();
        let result = pixel.recalc(&grid(), [0, 0], no_grass, Some(&mut rng));
        assert_eq!(result, PixelChangeResult::Updated);
        let value = pixel.determined_value.unwrap();
        assert!(value == Tile::Dirt || value == Tile::Water);
        assert_eq!(pixel.possible_values, vec![(value, 1)]);
        seen_dirt |= value == Tile::Dirt;
        seen_water |= value == Tile::Water;
    }
    assert!(seen_dirt && seen_water);
}

#[test]
fn recalc_with_a_random_source_picks_by_the_weights_that_the_constraint_gives() {
    let heavy_water = |_: &Grid<Tile, 2>, _: [usize; 2], tile: &Tile, _: u32| {
        (true, if *tile == Tile::Water { 1_000_000 } else { 1 })
    };
    let mut water = 0;
    for seed in 0..64 {
        let mut rng = StdRng::seed_from_u64(seed);
        let mut pixel: Pixel<Tile> = Pixel::default();
        assert_eq!(
            pixel.recalc(&grid(), [0, 0], heavy_water, Some(&mut rng)),
            PixelChangeResult::Updated
        );
        if pixel.determined_value == Some(Tile::Water) {
            water += 1;
        }
    }
    assert!(water >= 60);
}

#[test]
fn recalc_with_a_random_source_and_nothing_dropped_still_settles() {
    let mut rng = StdRng::seed_from_u64(3);
    let mut pixel: Pixel<Tile> = Pixel::default();
    assert_eq!(pixel.recalc(&grid(), [0, 0], any, Some(&mut rng)), PixelChangeResult::Updated);
    assert!(pixel.determined_value.is_some());
    assert_eq!(pixel.possible_values.len(), 1);
}

#[test]
fn recalc_asks_about_the_given_location_of_the_given_grid() {
    let mut marked = grid();
    marked.set_item([1, 0], Pixel::new(Tile::Water));
    let next_to_water = |grid: &Grid<Tile, 2>, location: [usize; 2], tile: &Tile, weight: u32| {
        let wet = grid
            .unidirectional_neighbors(location)
            .iter()
            .any(|near| near.1.determined_value == Some(Tile::Water));
        (!(wet && *tile == Tile::Grass), weight)
    };
    let mut beside: Pixel<Tile> = Pixel::default();
    assert_eq!(beside.recalc(&marked, [0, 0], next_to_water, None), PixelChangeResult::Updated);
    assert_eq!(beside.values(), vec![Tile::Dirt, Tile::Water]);
    let mut across: Pixel<Tile> = Pixel::default();
    assert_eq!(across.recalc(&marked, [0, 1], next_to_water, None), PixelChangeResult::Unchanged);
    assert_eq!(across.possible_values, Tile::get_possible_values());
}

#[test]
fn recalc_with_a_random_source_never_picks_a_candidate_of_weight_zero() {
    let no_dirt = |_: &Grid<Tile, 2>, _: [usize; 2], tile: &Tile, weight: u32| {
        (true, if *tile == Tile::Dirt { 0 } else { weight })
    };
    let mut seen_grass = false;
    let mut seen_water = false;
    for seed in 0..64 {
        let mut rng = StdRng::seed_from_u64(seed);
        let mut pixel: Pixel<Tile> = Pixel::default();
        assert_eq!(pixel.recalc(&grid(), [0, 0], no_dirt, Some(&mut rng)), PixelChangeResult::Updated);
        let value = pixel.determined_value.unwrap();
        assert!(value != Tile::Dirt);
        assert_eq!(pixel.possible_values, vec![(value, 1)]);
        seen_grass |= value == Tile::Grass;
        seen_water |= value == Tile::Water;
    }
    assert!(seen_grass && seen_water);
}

#[test]
fn recalc_without_a_random_source_keeps_a_weight_of_zero() {
    let no_dirt = |_: &Grid<Tile, 2>, _: [usize; 2], tile: &Tile, weight: u32| {
        (true, if *tile == Tile::Dirt { 0 } else { weight })
    };
    let mut pixel: Pixel<Tile> = Pixel::default();
    assert_eq!(pixel.recalc(&grid(), [0, 0], no_dirt, None), PixelChangeResult::Unchanged);
    assert_eq!(pixel.possible_values, vec![(Tile::Grass, 4), (Tile::Dirt, 0), (Tile::Water, 3)]);
}
