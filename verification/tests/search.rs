use one_forty_nine_solver::{expand, solve, BoardState, Catalog, Search, Step, BOARD, PIECE_NAMES};

#[test]
fn expand_pushes_every_move_that_fits() {
    let catalog = Catalog::new();
    let root = BoardState::new(1).pop().unwrap();
    let mut expected = vec![];
    for name in root.pieces_to_place.iter() {
        let piece = catalog.piece(*name);
        for variant in 0..piece.variants.len() {
            if let Ok(state) = root.place_piece(piece, variant) {
                expected.push(state);
            }
        }
    }
    assert!(!expected.is_empty());
    let mut stack = vec![BoardState::new(1).pop().unwrap()];
    expand(&catalog, &root, &mut stack);
    assert_eq!(stack.len(), 1 + expected.len());
    assert_eq!(stack[0].state, root.state);
    for (pushed, state) in stack[1..].iter().zip(expected.iter()) {
        assert_eq!(pushed.state, state.state);
        assert_eq!(pushed.anchor, state.anchor);
        assert_eq!(pushed.pieces_to_place, state.pieces_to_place);
        assert_eq!(pushed.pieces.len(), 2);
        assert_eq!(pushed.pieces[1].anchor, root.anchor);
        assert_eq!(pushed.pieces_to_place.len(), 11);
    }
}

#[test]
fn target_one_is_solved() {
    let solved = solve(1).unwrap();
    assert!(solved.pieces_to_place.is_empty());
    assert_eq!(solved.pieces.len(), 13);
    assert_eq!(solved.pieces[0].name, 'd');
    let mut placed: Vec<char> = solved.pieces.iter().map(|p| p.name).collect();
    placed.sort();
    placed.dedup();
    assert_eq!(placed.len(), 13);
    let free: usize = solved.state.iter().map(|row| row.iter().filter(|c| **c == '.').count()).sum();
    assert_eq!(free, 0);
    let mut symbols: Vec<char> =
        solved.state.iter().flat_map(|row| row.iter().copied()).filter(|c| *c != 'x').collect();
    symbols.sort();
    symbols.dedup();
    assert_eq!(symbols, PIECE_NAMES.to_vec());
    // The target: blocked, with the target piece on all four sides.
    assert_eq!(solved.state[2][2], 'x');
    assert_eq!(solved.state[1][2], 'd');
    assert_eq!(solved.state[3][2], 'd');
    assert_eq!(solved.state[2][1], 'd');
    assert_eq!(solved.state[2][3], 'd');
    // After the target piece, every anchor lies later in reading order.
    for pair in solved.pieces[1..].windows(2) {
        assert!(pair[1].anchor.1 * 17 + pair[1].anchor.0 > pair[0].anchor.1 * 17 + pair[0].anchor.0);
    }
    // The last piece leaves the anchor where it was.
    assert_eq!(solved.anchor, solved.pieces[12].anchor);
    // Blocked cells and the rim are as printed.
    for (y, row) in solved.state.iter().enumerate() {
        for (x, cell) in row.iter().enumerate() {
            let printed = BOARD[y].as_bytes()[x] as char;
            assert_eq!(*cell == 'x', printed == 'x');
            assert_eq!(*cell == '0', printed == '0');
        }
    }
    // Every piece covers as many cells as it is printed with.
    for name in PIECE_NAMES.iter() {
        let printed: usize = BOARD.iter().map(|row| row.chars().filter(|c| c == name).count()).sum();
        let marked: usize =
            solved.state.iter().map(|row| row.iter().filter(|c| *c == name).count()).sum();
        assert_eq!(marked, printed);
    }
}

#[test]
fn other_targets_are_solved_too() {
    for target in [13u8, 16] {
        let solved = solve(target).unwrap();
        assert!(solved.pieces_to_place.is_empty());
        assert_eq!(solved.pieces.len(), 13);
        let free: usize =
            solved.state.iter().map(|row| row.iter().filter(|c| **c == '.').count()).sum();
        assert_eq!(free, 0);
    }
}

#[test]
fn dead_end_has_no_successors() {
    let catalog = Catalog::new();
    // Nothing can be laid on the rim.
    let stuck = BoardState { anchor: (5, 0), ..BoardState::new(1).pop().unwrap() };
    let mut stack = vec![];
    expand(&catalog, &stuck, &mut stack);
    assert!(stack.is_empty());
}

#[test]
fn search_goes_step_by_step() {
    let mut search = Search::new(16);
    assert_eq!(search.pending(), 2);
    let mut expanded = 0;
    let found = loop {
        let before = search.pending();
        match search.step() {
            Step::Solved(state) => {
                assert_eq!(search.pending(), before - 1);
                break state;
            }
            Step::Exhausted => panic!("target 16 has a solution"),
            Step::Expanded => {
                assert!(search.pending() + 1 >= before);
                expanded += 1;
            }
        }
    };
    assert!(expanded >= 12);
    assert!(found.pieces_to_place.is_empty());
    let direct = solve(16).unwrap();
    assert_eq!(found.state, direct.state);
    assert_eq!(found.anchor, direct.anchor);
}

#[test]
fn search_without_states_is_exhausted() {
    let mut search = Search::new(50);
    assert_eq!(search.pending(), 0);
    assert!(matches!(search.step(), Step::Exhausted));
    assert_eq!(search.pending(), 0);
    assert!(matches!(search.step(), Step::Exhausted));
}

#[test]
fn target_without_root_is_exhausted_at_once() {
    assert!(solve(50).is_none());
    assert!(solve(255).is_none());
}
