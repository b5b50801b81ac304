use microwfc::{Grid, Pixel, PossibleValues, SizeErr};

#[derive(Clone, Copy, PartialEq, Eq, Debug)]
enum Tile {
    Stone,
    Dirt,
    Grass,
}

impl PossibleValues for Tile {
    fn get_possible_values() -> Vec<(Self, u32)> {
        vec![(Tile::Grass, 2), (Tile::Grass, 1), (Tile::Dirt, 1), (Tile::Stone, 3)]
    }
}

fn locations<const D: usize>(list: &[([usize; D], Pixel<Tile>)]) -> Vec<[usize; D]> {
    list.iter().map(|entry| entry.0).collect()
}

#[test]
fn new_rejects_a_zero_dimension() {
    assert!(matches!(Grid::<Tile, 2>::new([3, 0]), Err(SizeErr::SizeMustNotBeZero)));
    assert!(matches!(Grid::<Tile, 3>::new([0, 1, 1]), Err(SizeErr::SizeMustNotBeZero)));
    assert!(Grid::<Tile, 2>::new([1, 1]).is_ok());
}

#[test]
fn new_grid_starts_in_the_universe_state() {
    let grid: Grid<Tile, 2> = Grid::new([3, 2]).unwrap();
    assert_eq!(grid.size(), [3, 2]);
    assert_eq!(grid.data.len(), 6);
    for y in 0..2 {
        for x in 0..3 {
            let pixel = grid.get_item([x, y]);
            assert_eq!(pixel.possible_values, Tile::get_possible_values());
            assert_eq!(pixel.determined_value, None);
        }
    }
}

#[test]
fn grid_without_axes_has_one_cell() {
    let grid: Grid<Tile, 0> = Grid::new([]).unwrap();
    assert_eq!(grid.data.len(), 1);
    assert_eq!(locations(&grid.neighbors([], 3)), vec![[]]);
}

#[test]
fn set_item_changes_one_cell_only() {
    let mut grid: Grid<Tile, 3> = Grid::new([2, 3, 4]).unwrap();
    grid.set_item([1, 2, 3], Pixel::new(Tile::Stone));
    grid.set_item([0, 1, 0], Pixel::new(Tile::Dirt));
    for z in 0..4 {
        for y in 0..3 {
            for x in 0..2 {
                let pixel = grid.get_item([x, y, z]);
                if [x, y, z] == [1, 2, 3] {
                    assert_eq!(pixel.determined_value, Some(Tile::Stone));
                    assert_eq!(pixel.possible_values, vec![(Tile::Stone, 1)]);
                } else if [x, y, z] == [0, 1, 0] {
                    assert_eq!(pixel.determined_value, Some(Tile::Dirt));
                } else {
                    assert_eq!(pixel.determined_value, None);
                }
            }
        }
    }
}

#[test]
fn index_of_has_the_first_axis_fastest() {
    let grid: Grid<Tile, 3> = Grid::new([2, 3, 4]).unwrap();
    assert_eq!(grid.index_of([0, 0, 0]), 0);
    assert_eq!(grid.index_of([1, 0, 0]), 1);
    assert_eq!(grid.index_of([0, 1, 0]), 2);
    assert_eq!(grid.index_of([0, 0, 1]), 6);
    assert_eq!(grid.index_of([1, 2, 3]), 1 + 2 * 2 + 3 * 6);
    for index in 0..24 {
        assert_eq!(grid.index_of(grid.location_of(index)), index);
    }
    assert_eq!(grid.location_of(23), [1, 2, 3]);
    assert_eq!(grid.location_of(7), [1, 0, 1]);
}

#[test]
fn cells_are_kept_in_the_order_of_an_nd_array() {
    let grid: Grid<Tile, 3> = Grid::new([2, 3, 4]).unwrap();
    let array: micro_ndarray::Array<usize, 3> =
        micro_ndarray::Array::new_by_enumeration([2, 3, 4], |index| index);
    let mut seen = 0;
    for (location, index) in array.iter() {
        assert_eq!(grid.index_of(location), *index);
        assert_eq!(grid.location_of(*index), location);
        seen += 1;
    }
    assert_eq!(seen, 24);
}

#[test]
fn check_loc_accepts_exactly_the_cells() {
    let grid: Grid<Tile, 2> = Grid::new([3, 2]).unwrap();
    assert_eq!(grid.check_loc([0, 0]), Some([0, 0]));
    assert_eq!(grid.check_loc([2, 1]), Some([2, 1]));
    assert_eq!(grid.check_loc([-1, 0]), None);
    assert_eq!(grid.check_loc([0, -1]), None);
    assert_eq!(grid.check_loc([3, 0]), None);
    assert_eq!(grid.check_loc([0, 2]), None);
    assert_eq!(grid.check_loc([i128::MAX, 0]), None);
    assert_eq!(grid.check_loc([i128::MIN, 0]), None);
}

#[test]
fn neighbors_in_the_middle() {
    let grid: Grid<Tile, 2> = Grid::new([4, 4]).unwrap();
    assert_eq!(
        locations(&grid.neighbors([1, 2], 1)),
        vec![[0, 1], [1, 1], [2, 1], [0, 2], [1, 2], [2, 2], [0, 3], [1, 3], [2, 3]]
    );
}

#[test]
fn neighbors_are_cut_off_at_the_border() {
    let grid: Grid<Tile, 2> = Grid::new([4, 4]).unwrap();
    assert_eq!(locations(&grid.neighbors([0, 0], 1)), vec![[0, 0], [1, 0], [0, 1], [1, 1]]);
    assert_eq!(locations(&grid.neighbors([3, 3], 1)), vec![[2, 2], [3, 2], [2, 3], [3, 3]]);
    assert_eq!(locations(&grid.neighbors([3, 0], 0)), vec![[3, 0]]);
}

#[test]
fn neighbors_at_distance_two_reach_the_border() {
    let grid: Grid<Tile, 2> = Grid::new([5, 1]).unwrap();
    assert_eq!(locations(&grid.neighbors([1, 0], 2)), vec![[0, 0], [1, 0], [2, 0], [3, 0]]);
    assert_eq!(
        locations(&grid.neighbors([2, 0], usize::MAX)),
        vec![[0, 0], [1, 0], [2, 0], [3, 0], [4, 0]]
    );
}

#[test]
fn neighbors_carry_the_pixels() {
    let mut grid: Grid<Tile, 2> = Grid::new([2, 2]).unwrap();
    grid.set_item([1, 0], Pixel::new(Tile::Stone));
    let near = grid.neighbors([0, 0], 1);
    assert_eq!(near.len(), 4);
    for (location, pixel) in near {
        if location == [1, 0] {
            assert_eq!(pixel.determined_value, Some(Tile::Stone));
        } else {
            assert_eq!(pixel.determined_value, None);
        }
    }
}

#[test]
fn neighbors_in_three_dimensions() {
    let grid: Grid<Tile, 3> = Grid::new([3, 3, 3]).unwrap();
    let near = locations(&grid.neighbors([1, 1, 1], 1));
    assert_eq!(near.len(), 27);
    assert_eq!(near[0], [0, 0, 0]);
    assert_eq!(near[1], [1, 0, 0]);
    assert_eq!(near[3], [0, 1, 0]);
    assert_eq!(near[9], [0, 0, 1]);
    assert_eq!(near[26], [2, 2, 2]);
    assert_eq!(locations(&grid.neighbors([0, 0, 0], 1)).len(), 8);
}

#[test]
fn neighbors_are_mutual() {
    let grid: Grid<Tile, 2> = Grid::new([4, 3]).unwrap();
    for distance in 0..3 {
        for ay in 0..3 {
            for ax in 0..4 {
                for by in 0..3 {
                    for bx in 0..4 {
                        let from_a = locations(&grid.neighbors([ax, ay], distance));
                        let from_b = locations(&grid.neighbors([bx, by], distance));
                        assert_eq!(from_a.contains(&[bx, by]), from_b.contains(&[ax, ay]));
                    }
                }
            }
        }
    }
}

#[test]
fn unidirectional_neighbors_share_a_face() {
    let grid: Grid<Tile, 2> = Grid::new([4, 4]).unwrap();
    assert_eq!(
        locations(&grid.unidirectional_neighbors([1, 2])),
        vec![[1, 1], [0, 2], [2, 2], [1, 3]]
    );
    assert_eq!(locations(&grid.unidirectional_neighbors([0, 0])), vec![[1, 0], [0, 1]]);
    assert_eq!(locations(&grid.unidirectional_neighbors([3, 3])), vec![[3, 2], [2, 3]]);
}

#[test]
fn unidirectional_neighbors_in_three_dimensions() {
    let grid: Grid<Tile, 3> = Grid::new([3, 3, 3]).unwrap();
    assert_eq!(
        locations(&grid.unidirectional_neighbors([1, 1, 1])),
        vec![[1, 1, 0], [1, 0, 1], [0, 1, 1], [2, 1, 1], [1, 2, 1], [1, 1, 2]]
    );
    let single: Grid<Tile, 1> = Grid::new([1]).unwrap();
    assert!(single.unidirectional_neighbors([0]).is_empty());
}

#[test]
fn fits_tells_whether_the_cells_can_be_counted() {
    assert!(Grid::<Tile, 2>::fits([3, 4]));
    assert!(Grid::<Tile, 1>::fits([usize::MAX]));
    assert!(!Grid::<Tile, 2>::fits([usize::MAX, 2]));
    assert!(!Grid::<Tile, 3>::fits([1 << 40, 1 << 40, 1 << 40]));
    assert!(Grid::<Tile, 3>::fits([0, usize::MAX, usize::MAX]));
    assert!(Grid::<Tile, 3>::fits([usize::MAX, usize::MAX, 0]));
    assert!(Grid::<Tile, 0>::fits([]));
}

#[test]
fn well_formed_grid_has_one_sound_pixel_for_each_cell() {
    let mut grid: Grid<Tile, 2> = Grid::new([3, 2]).unwrap();
    assert!(grid.well_formed());
    grid.set_item([2, 1], Pixel::new(Tile::Dirt));
    assert!(grid.well_formed());
    grid.data[0].determined_value = Some(Tile::Grass);
    assert!(!grid.well_formed());
    grid.data[0] = Pixel::new(Tile::Grass);
    assert!(grid.well_formed());
    grid.data[0].possible_values = vec![(Tile::Stone, 1)];
    assert!(!grid.well_formed());
    grid.data[0] = Pixel::default();
    grid.data.pop();
    assert!(!grid.well_formed());
    grid.data.push(Pixel::default());
    assert!(grid.well_formed());
    grid.size = [3, 0];
    assert!(!grid.well_formed());
    grid.size = [2, 3];
    assert!(grid.well_formed());
    grid.size = [usize::MAX, usize::MAX];
    assert!(!grid.well_formed());
}

#[test]
fn is_complete_when_every_pixel_has_its_value() {
    let mut grid: Grid<Tile, 1> = Grid::new([2]).unwrap();
    assert!(!grid.is_complete());
    grid.set_item([0], Pixel::new(Tile::Dirt));
    assert!(!grid.is_complete());
    grid.set_item([1], Pixel::new(Tile::Stone));
    assert!(grid.is_complete());
}
