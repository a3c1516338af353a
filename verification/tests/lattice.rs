use dungeon::lattice::{Lattice, MapError, MAX_TILES, MIN_SECTOR_HEIGHT, MIN_SECTOR_WIDTH};

#[test]
fn partition_divides_with_remainder() {
    let lattice = Lattice::partition(32, 56, 2, 3).unwrap();
    assert_eq!(lattice.rows, 2);
    assert_eq!(lattice.columns, 3);
    assert_eq!(lattice.sector_width, 18);
    assert_eq!(lattice.sector_height, 16);
    assert_eq!(lattice.total(), 6);
}

#[test]
fn partition_of_the_largest_lattice_in_use() {
    let lattice = Lattice::partition(32, 56, 4, 4).unwrap();
    assert_eq!(lattice.sector_width, 14);
    assert_eq!(lattice.sector_height, 8);
    assert_eq!(lattice.total(), 16);
}

#[test]
fn partition_accepts_the_smallest_sector() {
    let lattice = Lattice::partition(6, 7, 1, 1).unwrap();
    assert_eq!(lattice.sector_width, 7);
    assert_eq!(lattice.sector_height, 6);
    let lattice = Lattice::partition(13, 15, 2, 2).unwrap();
    assert_eq!(lattice.sector_width, 7);
    assert_eq!(lattice.sector_height, 6);
}

#[test]
fn partition_refuses_a_narrow_sector() {
    assert_eq!(Lattice::partition(32, 6, 1, 1).err(), Some(MapError::ConfigError));
    assert_eq!(Lattice::partition(32, 13, 1, 2).err(), Some(MapError::ConfigError));
    assert_eq!(Lattice::partition(32, 56, 2, 9).err(), Some(MapError::ConfigError));
}

#[test]
fn partition_refuses_a_low_sector() {
    assert_eq!(Lattice::partition(5, 56, 1, 1).err(), Some(MapError::ConfigError));
    assert_eq!(Lattice::partition(11, 56, 2, 1).err(), Some(MapError::ConfigError));
}

#[test]
fn partition_refuses_an_empty_lattice() {
    assert_eq!(Lattice::partition(32, 56, 0, 3).err(), Some(MapError::ConfigError));
    assert_eq!(Lattice::partition(32, 56, 2, 0).err(), Some(MapError::ConfigError));
    assert_eq!(Lattice::partition(32, 56, 0, 0).err(), Some(MapError::ConfigError));
    assert_eq!(Lattice::partition(0, 0, 1, 1).err(), Some(MapError::ConfigError));
}

#[test]
fn limits() {
    assert_eq!(MIN_SECTOR_WIDTH, 7);
    assert_eq!(MIN_SECTOR_HEIGHT, 6);
    assert_eq!(MAX_TILES, i32::MAX as u32);
}

#[test]
fn neighbours_in_the_middle() {
    let lattice = Lattice::partition(60, 60, 3, 3).unwrap();
    assert_eq!(lattice.neighbours(4), vec![3, 5, 1, 7]);
}

#[test]
fn neighbours_at_the_corners() {
    let lattice = Lattice::partition(60, 60, 3, 3).unwrap();
    assert_eq!(lattice.neighbours(0), vec![1, 3]);
    assert_eq!(lattice.neighbours(2), vec![1, 5]);
    assert_eq!(lattice.neighbours(6), vec![7, 3]);
    assert_eq!(lattice.neighbours(8), vec![7, 5]);
}

#[test]
fn neighbours_at_the_edges() {
    let lattice = Lattice::partition(60, 60, 3, 3).unwrap();
    assert_eq!(lattice.neighbours(1), vec![0, 2, 4]);
    assert_eq!(lattice.neighbours(3), vec![4, 0, 6]);
    assert_eq!(lattice.neighbours(5), vec![4, 2, 8]);
    assert_eq!(lattice.neighbours(7), vec![6, 8, 4]);
}

#[test]
fn single_sector_has_no_neighbour() {
    let lattice = Lattice::partition(10, 10, 1, 1).unwrap();
    assert_eq!(lattice.neighbours(0), Vec::<u32>::new());
}

#[test]
fn single_column_has_no_side_neighbours() {
    let lattice = Lattice::partition(40, 10, 4, 1).unwrap();
    assert_eq!(lattice.neighbours(0), vec![1]);
    assert_eq!(lattice.neighbours(1), vec![0, 2]);
    assert_eq!(lattice.neighbours(3), vec![2]);
}

#[test]
fn single_row_has_no_neighbours_above_or_below() {
    let lattice = Lattice::partition(10, 40, 1, 4).unwrap();
    assert_eq!(lattice.neighbours(0), vec![1]);
    assert_eq!(lattice.neighbours(2), vec![1, 3]);
    assert_eq!(lattice.neighbours(3), vec![2]);
}

#[test]
fn origin_counts_columns_then_rows() {
    let lattice = Lattice::partition(32, 56, 2, 3).unwrap();
    assert_eq!(lattice.origin(0), (0, 0));
    assert_eq!(lattice.origin(1), (18, 0));
    assert_eq!(lattice.origin(2), (36, 0));
    assert_eq!(lattice.origin(3), (0, 16));
    assert_eq!(lattice.origin(5), (36, 16));
}
