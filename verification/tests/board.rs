use one_forty_nine_solver::{
    extract_piece_from_board, number_to_coordinate, BoardPiece, BoardState, Catalog, BOARD,
    PIECE_NAMES,
};

fn empty_board(anchor: (usize, usize), pieces_to_place: Vec<char>) -> BoardState {
    let state = BOARD
        .iter()
        .map(|row| {
            row.chars()
                .map(|c| match c {
                    '0' => '0',
                    'x' => 'x',
                    _ => '.',
                })
                .collect()
        })
        .collect();
    BoardState { pieces: vec![], state, anchor, pieces_to_place }
}

fn all_placeable() -> Vec<char> {
    PIECE_NAMES.iter().skip(1).copied().collect()
}

fn row_major(c: (usize, usize)) -> usize {
    c.1 * 17 + c.0
}

#[test]
fn test_number_to_coordinate() {
    assert_eq!(number_to_coordinate(1), (2, 2));
    assert_eq!(number_to_coordinate(10), (6, 4));
    assert_eq!(number_to_coordinate(49), (14, 14));
}

#[test]
fn targets_lie_on_blocked_cells_seven_to_a_row() {
    assert_eq!(number_to_coordinate(7), (14, 2));
    assert_eq!(number_to_coordinate(8), (2, 4));
    assert_eq!(number_to_coordinate(43), (2, 14));
    for number in 1..=49u8 {
        let (x, y) = number_to_coordinate(number);
        assert_eq!(BOARD[y].as_bytes()[x], b'x');
    }
    // Past the last target the mapping goes on the same way.
    assert_eq!(number_to_coordinate(50), (2, 16));
    assert_eq!(number_to_coordinate(255), (6, 74));
}

#[test]
fn target_one_has_one_root() {
    let roots = BoardState::new(1);
    assert_eq!(roots.len(), 1);
    let root = &roots[0];
    assert_eq!(root.pieces.len(), 1);
    assert_eq!(root.pieces[0].name, 'd');
    assert_eq!(root.pieces[0].variant, 0);
    assert_eq!(root.pieces[0].anchor, (3, 0));
    assert_eq!(root.pieces_to_place, vec!['1', '2', '3', '4', '5', '6', '7', '8', '9', 'a', 'b', 'c']);
    let expected = [
        "x0xdx0x.x0x.x0x.x",
        "dddd............0",
        "xdxdx.x.x.x.x.x.x",
        "0dddd............",
        "xdx.x.x.x.x.x.x.x",
        "................0",
        "x.x.x.x.x.x.x.x.x",
        "0................",
        "x.x.x.x.x.x.x.x.x",
        "................0",
        "x.x.x.x.x.x.x.x.x",
        "0................",
        "x.x.x.x.x.x.x.x.x",
        "................0",
        "x.x.x.x.x.x.x.x.x",
        "0................",
        "x.x0x.x0x.x0x.x0x",
    ];
    let expected: Vec<Vec<char>> = expected.iter().map(|row| row.chars().collect()).collect();
    assert_eq!(root.state, expected);
    // The first free cell in reading order.
    assert_eq!(root.anchor, (7, 0));
}

#[test]
fn every_target_has_at_most_two_roots() {
    for target in 1..=49u8 {
        let (x, y) = number_to_coordinate(target);
        let roots = BoardState::new(target);
        assert!(roots.len() <= 2);
        for root in &roots {
            assert_eq!(root.pieces.len(), 1);
            assert_eq!(root.pieces[0].name, 'd');
            assert_eq!(root.pieces_to_place.len(), 12);
            assert!(!root.pieces_to_place.contains(&'d'));
            let marked: usize =
                root.state.iter().map(|row| row.iter().filter(|c| **c == 'd').count()).sum();
            assert_eq!(marked, 12);
            // The target piece lies around the target.
            assert_eq!(root.state[y][x], 'x');
            assert_eq!(root.state[y][x - 1], 'd');
            assert_eq!(root.state[y][x + 1], 'd');
            assert_eq!(root.state[y - 1][x], 'd');
            assert_eq!(root.state[y + 1][x], 'd');
            assert_eq!(root.state[root.anchor.1][root.anchor.0], '.');
        }
        let sides: Vec<usize> = roots.iter().map(|root| root.pieces[0].variant).collect();
        assert!(sides == vec![] || sides == vec![0] || sides == vec![1] || sides == vec![0, 1]);
        for root in &roots {
            let side = root.pieces[0].variant;
            let expected = if side == 0 { (x + 1, y - 2) } else { (x - 1, y - 2) };
            assert_eq!(root.pieces[0].anchor, expected);
        }
    }
}

#[test]
fn targets_off_the_board_have_no_root() {
    assert_eq!(BoardState::new(50).len(), 0);
    assert_eq!(BoardState::new(200).len(), 0);
    assert_eq!(BoardState::new(255).len(), 0);
}

#[test]
fn placing_marks_the_cells_and_moves_the_anchor() {
    let catalog = Catalog::new();
    let board = empty_board((1, 1), all_placeable());
    // The piece 1 as printed, with its first cell of the top row on (3, 0).
    let board = BoardState { anchor: (3, 0), ..board };
    let next = board.place_piece(catalog.piece('1'), 0).unwrap();
    for (y, row) in next.state.iter().enumerate() {
        for (x, cell) in row.iter().enumerate() {
            let printed = BOARD[y].as_bytes()[x] as char;
            let expected = match printed {
                '1' => '1',
                '0' => '0',
                'x' => 'x',
                _ => '.',
            };
            assert_eq!(*cell, expected);
        }
    }
    assert_eq!(next.pieces.len(), 1);
    assert_eq!(next.pieces[0].name, '1');
    assert_eq!(next.pieces[0].variant, 0);
    assert_eq!(next.pieces[0].anchor, (3, 0));
    assert_eq!(next.pieces_to_place, vec!['2', '3', '4', '5', '6', '7', '8', '9', 'a', 'b', 'c', 'd']);
    assert_eq!(next.anchor, (7, 0));
}

#[test]
fn placing_is_rejected_off_the_board_and_on_taken_cells() {
    let catalog = Catalog::new();
    let piece = catalog.piece('1');
    // To the left of the board: the top row starts at offset 3.
    assert!(empty_board((1, 1), all_placeable()).place_piece(piece, 0).is_err());
    // Below the board.
    assert!(empty_board((3, 16), all_placeable()).place_piece(piece, 0).is_err());
    // To the right of the board.
    assert!(empty_board((15, 1), all_placeable()).place_piece(piece, 0).is_err());
    // On the rim.
    assert!(empty_board((5, 0), all_placeable()).place_piece(piece, 0).is_err());
    // On a blocked cell.
    assert!(empty_board((4, 0), all_placeable()).place_piece(piece, 0).is_err());
    // On a piece.
    let board = BoardState { anchor: (3, 0), ..empty_board((0, 0), all_placeable()) };
    let next = board.place_piece(piece, 0).unwrap();
    let again = BoardState { anchor: (3, 0), ..next };
    assert!(again.place_piece(catalog.piece('2'), 0).is_err());
}

#[test]
fn rejected_placing_leaves_the_state_as_it_was() {
    let catalog = Catalog::new();
    let board = empty_board((5, 0), all_placeable());
    let grid = board.state.clone();
    let left = board.pieces_to_place.clone();
    for name in PIECE_NAMES.iter().skip(1) {
        let piece = catalog.piece(*name);
        for variant in 0..piece.variants.len() {
            assert!(board.place_piece(piece, variant).is_err());
            assert_eq!(board.state, grid);
            assert_eq!(board.pieces_to_place, left);
            assert_eq!(board.pieces.len(), 0);
            assert_eq!(board.anchor, (5, 0));
        }
    }
}

#[test]
fn both_ways_of_testing_overlap_agree() {
    let catalog = Catalog::new();
    let anchors = [(3, 0), (7, 0), (0, 1), (1, 1), (5, 0), (16, 16), (9, 9), (12, 3), (0, 15)];
    for anchor in anchors {
        let board = empty_board(anchor, all_placeable());
        for name in PIECE_NAMES.iter().skip(1) {
            let piece = catalog.piece(*name);
            for sprite in &piece.variants {
                let mut slow = board.state.clone();
                let mut fast = board.state.clone();
                let overlap = board.detect_overlap(&mut slow, *name, sprite);
                let overlap_fast = board.detect_overlap_fast(&mut fast, *name, sprite);
                assert_eq!(overlap, overlap_fast);
                if !overlap {
                    assert_eq!(slow, fast);
                    let marked: usize =
                        slow.iter().map(|row| row.iter().filter(|c| *c == name).count()).sum();
                    assert_eq!(marked, sprite.value_coordinates().len());
                }
            }
        }
    }
}

#[test]
fn overlap_marks_stop_at_the_first_misfit() {
    let catalog = Catalog::new();
    let anchors = [(1, 1), (5, 0), (15, 1), (3, 16), (9, 9), (0, 15), (4, 0)];
    for anchor in anchors {
        let board = empty_board(anchor, all_placeable());
        for name in PIECE_NAMES.iter().skip(1) {
            for sprite in &catalog.piece(*name).variants {
                let fits_at = |i: usize, j: usize| {
                    anchor.0 + i >= sprite.top_left()
                        && anchor.0 + i - sprite.top_left() < 17
                        && anchor.1 + j < 17
                        && board.state[anchor.1 + j][anchor.0 + i - sprite.top_left()] == '.'
                };
                // Row by row through the matrix.
                let mut expected = board.state.clone();
                let mut misfit = false;
                'rows: for (j, row) in sprite.value().iter().enumerate() {
                    for (i, cell) in row.iter().enumerate() {
                        if *cell {
                            if !fits_at(i, j) {
                                misfit = true;
                                break 'rows;
                            }
                            expected[anchor.1 + j][anchor.0 + i - sprite.top_left()] = *name;
                        }
                    }
                }
                let mut slow = board.state.clone();
                assert_eq!(board.detect_overlap(&mut slow, *name, sprite), misfit);
                assert_eq!(slow, expected);
                // In the order of the list.
                let mut expected = board.state.clone();
                for (i, j) in sprite.value_coordinates() {
                    if !fits_at(*i, *j) {
                        break;
                    }
                    expected[anchor.1 + j][anchor.0 + i - sprite.top_left()] = *name;
                }
                let mut fast = board.state.clone();
                assert_eq!(board.detect_overlap_fast(&mut fast, *name, sprite), misfit);
                assert_eq!(fast, expected);
            }
        }
    }
}

#[test]
fn placed_pieces_do_not_overlap_and_anchors_move_on() {
    let catalog = Catalog::new();
    let mut board = BoardState::new(1).pop().unwrap();
    let mut anchors = vec![];
    // Greedy descent: always take the first move that fits.
    loop {
        let mut next = None;
        for name in board.pieces_to_place.iter() {
            let piece = catalog.piece(*name);
            for variant in 0..piece.variants.len() {
                if next.is_none() {
                    if let Ok(state) = board.place_piece(piece, variant) {
                        next = Some(state);
                    }
                }
            }
        }
        match next {
            Some(state) => {
                anchors.push(board.anchor);
                if !state.pieces_to_place.is_empty() {
                    assert!(row_major(state.anchor) > row_major(board.anchor));
                }
                board = state;
            }
            None => break,
        }
    }
    assert!(anchors.len() >= 2);
    for BoardPiece { name, variant, anchor } in &board.pieces {
        let sprite = &extract_piece_from_board(*name, false).variants[*variant];
        for (i, j) in sprite.value_coordinates() {
            let x = anchor.0 + i - sprite.top_left();
            let y = anchor.1 + j;
            assert_eq!(board.state[y][x], *name);
        }
        let marked: usize =
            board.state.iter().map(|row| row.iter().filter(|c| *c == name).count()).sum();
        assert_eq!(marked, sprite.value_coordinates().len());
    }
    let mut names: Vec<char> = board.pieces.iter().map(|p| p.name).collect();
    names.extend(board.pieces_to_place.iter());
    names.sort();
    assert_eq!(names, all_placeable());
}

#[test]
fn board_is_drawn_cell_by_cell() {
    let text = empty_board((0, 0), vec![]).render();
    let lines: Vec<&str> = text.split('\n').collect();
    assert_eq!(lines.len(), 18);
    assert_eq!(lines[0], "x 0 x . x 0 x . x 0 x . x 0 x . x ");
    assert_eq!(lines[1], ". . . . . . . . . . . . . . . . 0 ");
    assert_eq!(lines[16], "x . x 0 x . x 0 x . x 0 x . x 0 x ");
    assert_eq!(lines[17], "");
}
