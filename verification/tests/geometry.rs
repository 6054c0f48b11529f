use one_forty_nine_solver::{create_new_variant, eq_sprites, flip, Rotation};

fn matrix(rows: &[&str]) -> Vec<Vec<bool>> {
    rows.iter().map(|row| row.chars().map(|c| c == '#').collect()).collect()
}

#[test]
fn transform_maps_positions_and_sizes() {
    // A matrix three wide and two high, position (2, 0).
    assert_eq!(Rotation::R0.transform((2, 0, 3, 2)), (2, 0, 3, 2));
    assert_eq!(Rotation::R90.transform((2, 0, 3, 2)), (1, 2, 2, 3));
    assert_eq!(Rotation::R180.transform((2, 0, 3, 2)), (0, 1, 3, 2));
    assert_eq!(Rotation::R270.transform((2, 0, 3, 2)), (0, 0, 2, 3));
}

#[test]
fn transform_size_swaps_on_odd_quarter_turns() {
    assert_eq!(Rotation::R0.transform_size((3, 2)), (3, 2));
    assert_eq!(Rotation::R90.transform_size((3, 2)), (2, 3));
    assert_eq!(Rotation::R180.transform_size((3, 2)), (3, 2));
    assert_eq!(Rotation::R270.transform_size((3, 2)), (2, 3));
}

#[test]
fn flip_mirrors_the_column() {
    assert_eq!(flip((0, 4, 5)), (4, 4));
    assert_eq!(flip((4, 1, 5)), (0, 1));
    assert_eq!(flip((2, 0, 5)), (2, 0));
}

#[test]
fn eq_sprites_compares_entry_by_entry() {
    let a = matrix(&["#.", ".#"]);
    let b = matrix(&["#.", ".#"]);
    let c = matrix(&["#.", "##"]);
    let d = matrix(&["#.", ".#", ".."]);
    let e = matrix(&["#", "."]);
    assert!(eq_sprites(&a, &b));
    assert!(!eq_sprites(&a, &c));
    assert!(!eq_sprites(&a, &d));
    assert!(!eq_sprites(&a, &e));
    assert!(eq_sprites(&[], &[]));
}

#[test]
fn quarter_turn_of_an_l_shape() {
    let l = matrix(&["#.", "#.", "##"]);
    let (turned, coordinates, top_left) = create_new_variant(&l, &Rotation::R90, false);
    assert_eq!(turned, matrix(&["###", "#.."]));
    assert_eq!(top_left, 0);
    // Column by column of the source, each from the top.
    assert_eq!(coordinates, vec![(2, 0), (1, 0), (0, 0), (0, 1)]);
}

#[test]
fn half_turn_and_mirror_of_an_l_shape() {
    let l = matrix(&["#.", "#.", "##"]);
    let (turned, _, top_left) = create_new_variant(&l, &Rotation::R180, false);
    assert_eq!(turned, matrix(&["##", ".#", ".#"]));
    assert_eq!(top_left, 0);
    let (mirrored, coordinates, top_left) = create_new_variant(&l, &Rotation::R0, true);
    assert_eq!(mirrored, matrix(&[".#", ".#", "##"]));
    assert_eq!(top_left, 1);
    assert_eq!(coordinates, vec![(1, 0), (1, 1), (1, 2), (0, 2)]);
    let (both, _, top_left) = create_new_variant(&l, &Rotation::R270, true);
    assert_eq!(both, matrix(&["#..", "###"]));
    assert_eq!(top_left, 0);
}

#[test]
fn top_left_of_an_empty_top_row_is_the_largest_number() {
    let shape = matrix(&["..", "#."]);
    let (same, coordinates, top_left) = create_new_variant(&shape, &Rotation::R0, false);
    assert_eq!(same, shape);
    assert_eq!(coordinates, vec![(0, 1)]);
    assert_eq!(top_left, usize::MAX);
}

#[test]
fn four_quarter_turns_give_the_matrix_back() {
    let shapes = vec![
        matrix(&["#.", "#.", "##"]),
        matrix(&["#"]),
        matrix(&["##.", ".##"]),
        matrix(&["...#.", "####.", ".#.#.", ".####", ".#..."]),
    ];
    for shape in shapes {
        let (once, _, _) = create_new_variant(&shape, &Rotation::R90, false);
        let (twice, _, _) = create_new_variant(&once, &Rotation::R90, false);
        let (thrice, _, _) = create_new_variant(&twice, &Rotation::R90, false);
        let (back, _, _) = create_new_variant(&thrice, &Rotation::R90, false);
        assert_eq!(twice, create_new_variant(&shape, &Rotation::R180, false).0);
        assert_eq!(thrice, create_new_variant(&shape, &Rotation::R270, false).0);
        assert_eq!(back, shape);
    }
}
