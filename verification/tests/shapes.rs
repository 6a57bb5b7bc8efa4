use tetra_pack::arith::isqrt;
use tetra_pack::tetra::{static_tetras_iter, PlacedTetra, PlacedTetraInBoundaries};
use tetra_pack::util::{Pos, Size};

#[test]
fn check_for_3x3() {
    let catalog = static_tetras_iter();
    let i_horizontal = catalog[1];
    assert!(matches!(
        PlacedTetraInBoundaries::in_boundaries(
            PlacedTetra::new(i_horizontal, Pos::new(0, 0)),
            Size::new(3, 3)
        ),
        None
    ));
}

#[test]
fn check_for_horizontal_i_in_4x4() {
    let catalog = static_tetras_iter();
    let i_horizontal = catalog[1];
    assert!(matches!(
        PlacedTetraInBoundaries::in_boundaries(
            PlacedTetra::new(i_horizontal, Pos::new(0, 0)),
            Size::new(4, 4)
        ),
        Some(_)
    ));
}

#[test]
fn check_horizontal_i_in_4x4_at_col_1() {
    let catalog = static_tetras_iter();
    let i_horizontal = catalog[1];
    assert!(matches!(
        PlacedTetraInBoundaries::in_boundaries(
            PlacedTetra::new(i_horizontal, Pos::new(0, 1)),
            Size::new(4, 4)
        ),
        None
    ));
}

#[test]
fn checj_t_at_right_border() {
    let catalog = static_tetras_iter();
    let t_look_left = catalog[6];
    assert!(matches!(
        PlacedTetraInBoundaries::in_boundaries(
            PlacedTetra::new(t_look_left, Pos::new(0, 2)),
            Size::new(3, 3)
        ),
        Some(_)
    ));
}

#[test]
fn catalog_has_nineteen_orientations() {
    let catalog = static_tetras_iter();
    assert_eq!(catalog.len(), 19);
    let i_horizontal = catalog[1];
    assert_eq!(i_horizontal.size().rows, 1);
    assert_eq!(i_horizontal.size().cols, 4);
    assert_eq!(*i_horizontal.col_shift(), 0);
    let offs = i_horizontal.iter();
    assert_eq!(offs.to_vec(), vec![Pos::new(0, 0), Pos::new(0, 1), Pos::new(0, 2), Pos::new(0, 3)]);
}

#[test]
fn t_left_boundary_law_around_its_shift() {
    // The left-overhang T orientation has col_shift 1: rejected at column 0,
    // accepted at column 1 on a grid wide enough.
    let catalog = static_tetras_iter();
    let t_look_left = catalog[6];
    assert_eq!(*t_look_left.col_shift(), 1);
    assert!(matches!(
        PlacedTetraInBoundaries::in_boundaries(
            PlacedTetra::new(t_look_left, Pos::new(0, 0)),
            Size::new(3, 3)
        ),
        None
    ));
    assert!(matches!(
        PlacedTetraInBoundaries::in_boundaries(
            PlacedTetra::new(t_look_left, Pos::new(0, 1)),
            Size::new(3, 3)
        ),
        Some(_)
    ));
}

#[test]
fn validate_is_deterministic() {
    let catalog = static_tetras_iter();
    let t_look_left = catalog[6];
    let a = PlacedTetraInBoundaries::in_boundaries(
        PlacedTetra::new(t_look_left, Pos::new(0, 2)),
        Size::new(3, 3),
    )
    .unwrap();
    let b = PlacedTetraInBoundaries::in_boundaries(
        PlacedTetra::new(t_look_left, Pos::new(0, 2)),
        Size::new(3, 3),
    )
    .unwrap();
    assert_eq!(a.iter_relative_to_place(), b.iter_relative_to_place());
    assert!(a.as_placed().tetra.same_shape(&b.as_placed().tetra));
    assert_eq!(a.as_placed().position, b.as_placed().position);
}

#[test]
fn covered_cells_account_for_the_shift() {
    let catalog = static_tetras_iter();
    let t_look_left = catalog[6];
    let placed = PlacedTetraInBoundaries::in_boundaries(
        PlacedTetra::new(t_look_left, Pos::new(0, 1)),
        Size::new(3, 2),
    )
    .unwrap();
    let cells = placed.iter_relative_to_place();
    assert_eq!(cells, vec![Pos::new(0, 1), Pos::new(1, 0), Pos::new(1, 1), Pos::new(2, 1)]);
}

#[test]
fn isqrt_matches_exact_squares_and_gaps() {
    assert_eq!(isqrt(0), 0);
    assert_eq!(isqrt(1), 1);
    assert_eq!(isqrt(15), 3);
    assert_eq!(isqrt(16), 4);
    assert_eq!(isqrt(17), 4);
    assert_eq!(isqrt(63), 7);
    assert_eq!(isqrt(64), 8);
}
