use one_forty_nine_solver::{
    create_new_variant, eq_sprites, extract_piece_from_board, piece_color, Catalog, Color,
    Rotation, BOARD, PIECE_COLORS, PIECE_NAMES, ROTATIONS,
};

#[test]
fn test_print_piece() {
    let catalog = Catalog::new();
    println!("Piece: {}", catalog.piece('5').render())
}

#[test]
fn test_create_new_variant() {
    let catalog = Catalog::new();
    let value: &Vec<Vec<bool>> = catalog.piece('d').variants[0].value();
    let (value_new, _, _) = create_new_variant(&value, &Rotation::R90, false);

    assert_eq!(eq_sprites(value, &value_new), true);
}

#[test]
fn test_extract_piece_from_board() {
    let piece = extract_piece_from_board('d', false);
    println!("Piece: {}", piece.render());
}

#[test]
fn target_piece_has_its_printed_shape_and_its_mirror_image() {
    let piece = extract_piece_from_board('d', false);
    assert_eq!(piece.name, 'd');
    assert_eq!(piece.color, Color::BrightWhite);
    assert_eq!(piece.variants.len(), 2);
    let expected = "Variant: 0\n\
                    Rotation: R0, flipped: false, top-left: 3\n\
                    ...d.\n\
                    dddd.\n\
                    .d.d.\n\
                    .dddd\n\
                    .d...\n\
                    \n\
                    \n\
                    Variant: 1\n\
                    Rotation: R0, flipped: true, top-left: 1\n\
                    .d...\n\
                    .dddd\n\
                    .d.d.\n\
                    dddd.\n\
                    ...d.\n\
                    \n\
                    \n";
    assert_eq!(piece.render(), expected);
}

#[test]
fn every_piece_has_one_to_eight_different_variants() {
    for name in PIECE_NAMES.iter().skip(1) {
        let piece = extract_piece_from_board(*name, false);
        assert!(1 <= piece.variants.len() && piece.variants.len() <= 8);
        for a in 0..piece.variants.len() {
            for b in 0..a {
                assert!(!eq_sprites(piece.variants[a].value(), piece.variants[b].value()));
            }
        }
    }
}

#[test]
fn every_variant_keeps_the_number_of_cells_of_the_piece() {
    for name in PIECE_NAMES.iter().skip(1) {
        let printed: usize = BOARD.iter().map(|row| row.chars().filter(|c| c == name).count()).sum();
        let piece = extract_piece_from_board(*name, false);
        for variant in &piece.variants {
            let set: usize =
                variant.value().iter().map(|row| row.iter().filter(|cell| **cell).count()).sum();
            assert_eq!(set, printed);
            assert_eq!(variant.value_coordinates().len(), printed);
            for (i, j) in variant.value_coordinates() {
                assert!(variant.value()[*j][*i]);
            }
            let first = variant.value()[0].iter().position(|cell| *cell);
            assert_eq!(first, Some(variant.top_left()));
        }
    }
}

#[test]
fn extraction_gives_the_same_piece_every_time() {
    let d_before = extract_piece_from_board('d', false);
    for name in PIECE_NAMES.iter() {
        let once = extract_piece_from_board(*name, false);
        let again = extract_piece_from_board(*name, false);
        assert_eq!(once.name, again.name);
        assert_eq!(once.color, again.color);
        assert_eq!(once.variants.len(), again.variants.len());
        for (a, b) in once.variants.iter().zip(again.variants.iter()) {
            assert_eq!(a.value(), b.value());
            assert_eq!(a.value_coordinates(), b.value_coordinates());
            assert_eq!(a.top_left(), b.top_left());
            assert_eq!(a.rotation(), b.rotation());
            assert_eq!(a.flipped(), b.flipped());
        }
    }
    let d_after = extract_piece_from_board('d', false);
    assert_eq!(d_before.render(), d_after.render());
}

#[test]
fn variants_come_in_the_order_of_the_orientations() {
    // The piece 3 has no symmetry: all eight orientations are kept.
    let piece = extract_piece_from_board('3', false);
    assert_eq!(piece.variants.len(), 8);
    let rotations = [Rotation::R0, Rotation::R90, Rotation::R180, Rotation::R270];
    for (k, variant) in piece.variants.iter().enumerate() {
        assert_eq!(variant.rotation(), rotations[k / 2]);
        assert_eq!(variant.flipped(), k % 2 == 1);
        let (value, coordinates, top_left) =
            create_new_variant(piece.variants[0].value(), &rotations[k / 2], k % 2 == 1);
        assert_eq!(&value, variant.value());
        assert_eq!(&coordinates, variant.value_coordinates());
        assert_eq!(top_left, variant.top_left());
    }
}

#[test]
fn rim_is_kept_as_printed() {
    let rim = extract_piece_from_board('0', true);
    assert_eq!(rim.name, '0');
    assert_eq!(rim.color, Color::Red);
    assert_eq!(rim.variants.len(), 1);
    let sprite = &rim.variants[0];
    assert_eq!(sprite.top_left(), 0);
    assert_eq!(sprite.rotation(), Rotation::R0);
    assert_eq!(sprite.flipped(), false);
    assert_eq!(sprite.value().len(), 17);
    for (j, row) in sprite.value().iter().enumerate() {
        assert_eq!(row.len(), 17);
        for (i, cell) in row.iter().enumerate() {
            assert_eq!(*cell, BOARD[j].as_bytes()[i] == b'0');
        }
    }
    let mut expected = vec![];
    for (j, row) in BOARD.iter().enumerate() {
        for (i, c) in row.chars().enumerate() {
            if c == '0' {
                expected.push((i, j));
            }
        }
    }
    assert_eq!(sprite.value_coordinates(), &expected);
}

#[test]
fn symmetric_pieces_have_fewer_variants() {
    let counts: Vec<usize> = PIECE_NAMES
        .iter()
        .skip(1)
        .map(|name| extract_piece_from_board(*name, false).variants.len())
        .collect();
    assert_eq!(counts, vec![4, 2, 8, 4, 8, 2, 8, 8, 8, 8, 8, 4, 2]);
    // The piece 2 is its own mirror image: its second variant is the quarter turn.
    let piece = extract_piece_from_board('2', false);
    assert_eq!(piece.variants[0].rotation(), Rotation::R0);
    assert_eq!(piece.variants[0].flipped(), false);
    assert_eq!(piece.variants[1].rotation(), Rotation::R90);
    assert_eq!(piece.variants[1].flipped(), false);
}

#[test]
fn colors_follow_the_order_of_the_symbols() {
    assert_eq!(piece_color(0), Color::Red);
    assert_eq!(piece_color(1), Color::Green);
    assert_eq!(piece_color(6), Color::White);
    assert_eq!(piece_color(7), Color::BrightRed);
    assert_eq!(piece_color(13), Color::BrightWhite);
    assert_eq!(PIECE_COLORS.len(), PIECE_NAMES.len());
    assert_eq!(PIECE_COLORS[9], Color::BrightYellow);
    assert_eq!(ROTATIONS, [Rotation::R0, Rotation::R90, Rotation::R180, Rotation::R270]);
    let catalog = Catalog::new();
    for (k, name) in PIECE_NAMES.iter().enumerate() {
        assert_eq!(catalog.piece(*name).name, *name);
        assert_eq!(catalog.piece(*name).color, piece_color(k));
    }
    assert_eq!(catalog.piece('0').variants.len(), 1);
}

#[test]
fn numbers_are_written_in_decimal() {
    // The piece 8 is seven columns wide; one of its turns has its first cell far right.
    let piece = extract_piece_from_board('8', false);
    let text = piece.render();
    for (k, variant) in piece.variants.iter().enumerate() {
        let heading = format!(
            "Variant: {}\nRotation: {:?}, flipped: {}, top-left: {}\n",
            k,
            variant.rotation(),
            variant.flipped(),
            variant.top_left()
        );
        assert!(text.contains(&heading));
    }
}
