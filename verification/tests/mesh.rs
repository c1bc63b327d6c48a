use linkcell::mesh::{mesh_cells, Mesh, MAX_CELLS};
use linkcell::Error;

#[test]
fn mesh_at_the_cap_is_accepted() {
    let m = Mesh::new(256, 256, 256).unwrap();
    assert_eq!(m.len() as i64, MAX_CELLS);
    assert_eq!(Mesh::new(257, 256, 256).unwrap_err(), Error::TooManyCells);
}

#[test]
fn cell_count_rejects_overflow_and_non_positive() {
    assert_eq!(mesh_cells(2, 3, 4), Ok(24));
    assert_eq!(mesh_cells(i32::MAX, i32::MAX, i32::MAX), Err(Error::TooManyCells));
    assert_eq!(mesh_cells(0, 5, 5), Err(Error::TooManyCells));
    assert_eq!(mesh_cells(-1, 5, 5), Err(Error::TooManyCells));
    assert_eq!(mesh_cells(-1, -1, 1), Ok(1));
}

#[test]
fn wrap_is_euclidean_and_row_major() {
    let m = Mesh::new(4, 3, 2).unwrap();
    assert_eq!(m.len(), 24);
    assert_eq!(m.wrap(0, 0, 0), 0);
    assert_eq!(m.wrap(-1, 0, 0), 3);
    assert_eq!(m.wrap(4, 0, 0), 0);
    assert_eq!(m.wrap(1, 2, 1), (1 * 3 + 2) * 4 + 1);
    assert_eq!(m.wrap(-5, -4, -3), (1 * 3 + 2) * 4 + 3);
}

#[test]
fn image_is_floor_division() {
    let m = Mesh::new(4, 3, 2).unwrap();
    assert_eq!(m.image(-1, 3, 1), (-1, 1, 0));
    assert_eq!(m.image(-5, -4, 4), (-2, -2, 2));
    assert_eq!(m.image(3, 2, 1), (0, 0, 0));
}

#[test]
fn max_reach_is_half_the_largest_count_plus_one() {
    assert_eq!(Mesh::new(4, 5, 6).unwrap().max_reach(), 4);
    assert_eq!(Mesh::new(1, 1, 1).unwrap().max_reach(), 1);
    assert_eq!(Mesh::new(7, 2, 3).unwrap().max_reach(), 4);
}

#[test]
fn clamp_keeps_bins_inside() {
    let m = Mesh::new(4, 3, 2).unwrap();
    assert_eq!(m.clamp((-3, 3, 1)), (0, 2, 1));
    assert_eq!(m.clamp((4, 0, 7)), (3, 0, 1));
}
