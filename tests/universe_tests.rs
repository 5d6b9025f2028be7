use cell_smoother::cell::Cell;
use cell_smoother::universe::{Universe, UniverseError};

fn cells_of(values: &[u8]) -> Vec<Cell> {
    values.iter().map(|v| Cell::new(*v)).collect()
}

fn values_of(universe: &Universe) -> Vec<u8> {
    universe.cells().iter().map(|c| c.value()).collect()
}

#[test]
fn lib_cells_with_power_of_two_length_creates_universe_with_root_of_length_sides() {
    let expected_side_length: u8 = 5;

    let cells = vec![Cell::new(1); expected_side_length.pow(2) as usize];
    let universe = Universe::new(cells).unwrap();

    assert_eq!(universe.width(), expected_side_length);
    assert_eq!(universe.height(), expected_side_length);
}

#[test]
#[should_panic]
fn lib_cells_with_non_power_of_two_length_fail_to_create_universe() {
    let cells = vec![Cell::new(1), Cell::new(2), Cell::new(3)];
    Universe::new(cells).unwrap();
}

#[test]
fn lib_cells_of_universe_should_match_created_ones_before_evolution() {
    let cells = vec![Cell::new(1), Cell::new(2), Cell::new(3), Cell::new(4)];
    let universe = Universe::new(cells).unwrap();

    let expected_cells: Vec<Cell> = vec![Cell::new(1), Cell::new(2), Cell::new(3), Cell::new(4)];
    assert_eq!(universe.cells(), &expected_cells);
}

#[test]
fn lib_cells_of_universe_should_evolve() {
    let cells = vec![Cell::new(1), Cell::new(3), Cell::new(3), Cell::new(3)];
    let expected_cells = vec![Cell::new(2), Cell::new(2), Cell::new(2), Cell::new(3)];

    let mut universe = Universe::new(cells).unwrap();
    universe.evolve();

    assert_eq!(universe.cells(), &expected_cells);
}

#[test]
fn old_lib_cells_with_power_of_two_length_creates_universe_with_root_of_length_sides() {
    let expected_side_length: u8 = 5;

    let cells = vec![Cell::new(1); expected_side_length.pow(2) as usize];
    let universe = Universe::new(cells).unwrap();

    assert_eq!(universe.width(), expected_side_length);
    assert_eq!(universe.height(), expected_side_length);
}

#[test]
#[should_panic]
fn old_lib_cells_with_non_power_of_two_length_fail_to_create_universe() {
    let cells = vec![Cell::new(1), Cell::new(2), Cell::new(3)];
    Universe::new(cells).unwrap();
}

#[test]
fn old_lib_cells_of_universe_should_match_created_ones_before_evolution() {
    let cells = vec![Cell::new(1), Cell::new(2), Cell::new(3), Cell::new(4)];
    let universe = Universe::new(cells).unwrap();

    let expected_cells: Vec<Cell> = vec![Cell::new(1), Cell::new(2), Cell::new(3), Cell::new(4)];
    assert_eq!(universe.cells(), &expected_cells);
}

#[test]
fn old_lib_cells_of_universe_should_evolve() {
    let cells = vec![Cell::new(1), Cell::new(3), Cell::new(3), Cell::new(3)];
    let expected_cells = vec![Cell::new(2), Cell::new(2), Cell::new(2), Cell::new(3)];

    let mut universe = Universe::new(cells).unwrap();
    universe.evolve();

    assert_eq!(universe.cells(), &expected_cells);
}

#[test]
fn non_square_count_is_invalid_dimensions() {
    assert_eq!(Universe::new(cells_of(&[1, 2, 3])).err(), Some(UniverseError::InvalidDimensions));
    assert_eq!(Universe::new(cells_of(&[1, 2, 3, 4, 5])).err(), Some(UniverseError::InvalidDimensions));
}

#[test]
fn square_side_larger_than_a_byte_is_invalid_dimensions() {
    let cells = vec![Cell::new(0); 256 * 256];
    assert_eq!(Universe::new(cells).err(), Some(UniverseError::InvalidDimensions));
}

#[test]
fn largest_square_side_is_accepted() {
    let cells = vec![Cell::new(0); 255 * 255];
    let universe = Universe::new(cells).unwrap();
    assert_eq!(universe.width(), 255);
    assert_eq!(universe.height(), 255);
}

#[test]
fn empty_cell_list_is_invalid_dimensions() {
    assert_eq!(Universe::new(Vec::new()).err(), Some(UniverseError::InvalidDimensions));
}

#[test]
fn zero_width_or_height_is_invalid_dimensions() {
    assert_eq!(Universe::with_dimensions(0, 3, Vec::new()).err(), Some(UniverseError::InvalidDimensions));
    assert_eq!(Universe::with_dimensions(3, 0, Vec::new()).err(), Some(UniverseError::InvalidDimensions));
    assert_eq!(Universe::with_dimensions(0, 0, Vec::new()).err(), Some(UniverseError::InvalidDimensions));
}

#[test]
fn explicit_dimensions_must_match_the_cell_count() {
    assert_eq!(
        Universe::with_dimensions(2, 3, cells_of(&[1, 2, 3, 4, 5])).err(),
        Some(UniverseError::InvalidDimensions)
    );
    let universe = Universe::with_dimensions(3, 2, cells_of(&[1, 2, 3, 4, 5, 6])).unwrap();
    assert_eq!(universe.width(), 3);
    assert_eq!(universe.height(), 2);
}

#[test]
fn cells_read_back_in_row_major_order() {
    let values = [9, 8, 7, 6, 5, 4];
    let universe = Universe::with_dimensions(2, 3, cells_of(&values)).unwrap();
    assert_eq!(values_of(&universe), values.to_vec());
}

#[test]
fn balanced_grid_is_a_fixed_point() {
    let mut uniform = Universe::new(vec![Cell::new(42); 9]).unwrap();
    uniform.evolve();
    assert_eq!(values_of(&uniform), vec![42; 9]);

    let mut row = Universe::with_dimensions(4, 1, vec![Cell::new(7); 4]).unwrap();
    row.evolve();
    assert_eq!(values_of(&row), vec![7; 4]);
}

#[test]
fn single_row_uses_cardinal_neighbours_only() {
    let mut universe = Universe::with_dimensions(3, 1, cells_of(&[0, 10, 0])).unwrap();
    universe.evolve();
    assert_eq!(values_of(&universe), vec![1, 9, 1]);
}

#[test]
fn single_column_uses_cardinal_neighbours_only() {
    let mut universe = Universe::with_dimensions(1, 4, cells_of(&[0, 10, 10, 20])).unwrap();
    universe.evolve();
    // averages: 10, 5, 15, 10
    assert_eq!(values_of(&universe), vec![1, 9, 11, 19]);
}

#[test]
fn every_position_reads_the_previous_generation() {
    // a sequential update would let the second cell see the first one's new value
    let mut universe = Universe::with_dimensions(2, 1, cells_of(&[0, 1])).unwrap();
    universe.evolve();
    assert_eq!(values_of(&universe), vec![1, 0]);
}

#[test]
fn edges_and_corners_weigh_their_partial_neighbourhoods() {
    // 3x3 grid, centre high
    let mut universe = Universe::new(cells_of(&[0, 0, 0, 0, 12, 0, 0, 0, 0])).unwrap();
    universe.evolve();
    // corner: cardinal [0, 0], diagonal [12] -> 12 / 5 = 2.4 -> 2: up by one
    // edge: cardinal [0, 0, 12], diagonal [0, 0] -> 24 / 8 = 3: up by one
    // centre: all neighbours 0: down by one
    assert_eq!(values_of(&universe), vec![1, 1, 1, 1, 11, 1, 1, 1, 1]);
}

#[test]
fn storage_is_kept_across_generations() {
    let mut universe = Universe::new(cells_of(&[1, 3, 3, 3])).unwrap();
    let before = universe.cells().as_ptr();
    universe.evolve();
    assert_eq!(universe.cells().as_ptr(), before);
}
