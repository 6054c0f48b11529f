//! The states from which the search for a target starts.

use crate::board::{
    at, board_models, cell_of, free_cells, grid_of, initial_grid, inventory, lemma_place_wf,
    place_model, BoardModel, BoardState,
};
use crate::cells::{in_box, lemma_boxed_finite, Cell};
use crate::geometry::Coordinate;
use crate::piece::{extract_piece_from_board, lemma_target_piece_variants, piece_model};
use crate::template::{
    is_placeable, lemma_alphabet, lemma_names, lemma_template_size, names, occurrences, template,
    template_cell, BLOCKED, FREE, PIECE_NAMES, RIM, SIZE, TARGET_PIECE,
};
use vstd::prelude::*;
use vstd::set_lib::{lemma_len_subset, lemma_set_disjoint_lens};

verus! {

/// The board position of the target with the given number, counted from 1
/// row by row, seven to a row.
pub open spec fn target_cell(number: int) -> Cell {
    (((number - 1) % 7 + 1) * 2, ((number - 1) / 7 + 1) * 2)
}

/// The anchor of the target piece beside target `number`: two rows above
/// the target, one column to its right for `side` 0 and one to its left for
/// `side` 1.
pub open spec fn seed_anchor(number: int, side: int) -> Cell {
    let t = target_cell(number);
    if side == 0 {
        (t.0 + 1, t.1 - 2)
    } else {
        (t.0 - 1, t.1 - 2)
    }
}

/// The state in which the target piece is still to be placed, at `anchor`.
pub open spec fn seed_model(anchor: Coordinate) -> BoardModel {
    BoardModel {
        grid: initial_grid(),
        placed: Seq::empty(),
        anchor,
        remaining: names().subrange(1, 14),
    }
}

/// The state with the target piece alone on the board beside target
/// `number`, in its orientation number `side` at the anchor of that side, if
/// the piece fits there.
pub open spec fn root_model(number: int, side: int) -> Option<BoardModel> {
    let a = seed_anchor(number, side);
    place_model(
        seed_model((a.0 as usize, a.1 as usize)),
        piece_model(TARGET_PIECE, false),
        side,
    )
}

/// The states from which the search for target `number` starts: the one of
/// side 0 and then the one of side 1, as far as the target piece fits.
pub open spec fn root_models(number: int) -> Seq<BoardModel> {
    let first = match root_model(number, 0) {
        Some(m) => seq![m],
        None => Seq::empty(),
    };
    let second = match root_model(number, 1) {
        Some(m) => seq![m],
        None => Seq::empty(),
    };
    first + second
}

/// The cells of the board whose symbol is one of `s`.
pub open spec fn region(s: Seq<char>) -> Set<Cell> {
    Set::new(|c: Cell| in_box(c, 17, 17) && s.contains(at(template(), c)))
}

/// Pieces with different symbols cover as many cells together as they cover
/// one by one.
pub proof fn lemma_region(s: Seq<char>)
    requires
        s.no_duplicates(),
    ensures
        region(s).finite(),
        region(s).len() == inventory(s),
    decreases s.len(),
{
    lemma_boxed_finite(region(s), 17, 17);
    if s.len() == 0 {
        assert(region(s) =~= Set::<Cell>::empty());
    } else {
        let front = s.drop_last();
        let last = s.last();
        lemma_region(front);
        lemma_boxed_finite(occurrences(last), 17, 17);
        assert(!front.contains(last)) by {
            if front.contains(last) {
                let n = choose|n: int| 0 <= n < front.len() && front[n] == last;
                assert(s[n] == s[s.len() - 1]);
            }
        }
        assert forall|c: Cell| region(s).contains(c) <==> (region(front) + occurrences(
            last,
        )).contains(c) by {
            let x = at(template(), c);
            if in_box(c, 17, 17) {
                if s.contains(x) {
                    let n = choose|n: int| 0 <= n < s.len() && s[n] == x;
                    if n < front.len() {
                        assert(front[n] == x);
                    }
                }
                if front.contains(x) {
                    let n = choose|n: int| 0 <= n < front.len() && front[n] == x;
                    assert(s[n] == x);
                }
                if x == last {
                    assert(s[s.len() - 1] == x);
                }
            }
        }
        assert(region(s) =~= region(front) + occurrences(last));
        assert(region(front).disjoint(occurrences(last)));
        lemma_set_disjoint_lens(region(front), occurrences(last));
    }
}

/// Before any piece is placed, the board has exactly the room that all
/// pieces need.
pub proof fn lemma_seed_wf(anchor: Coordinate)
    requires
        anchor.0 + 17 <= usize::MAX,
        anchor.1 + 17 <= usize::MAX,
    ensures
        seed_model(anchor).wf(),
        seed_model(anchor).balanced(),
        seed_model(anchor).faithful(),
{
    let m = seed_model(anchor);
    let s = names().subrange(1, 14);
    lemma_names();
    lemma_template_size();
    assert forall|k: int| 0 <= k < s.len() implies is_placeable(#[trigger] s[k]) by {
        assert(s[k] == names()[k + 1]);
    }
    assert forall|n: char| is_placeable(n) implies #[trigger] s.contains(n) by {
        let k = choose|k: int| 1 <= k < 14 && #[trigger] names()[k] == n;
        assert(s[k - 1] == n);
    }
    assert(s.no_duplicates());
    lemma_region(s);
    lemma_boxed_finite(free_cells(m.grid), 17, 17);
    assert forall|c: Cell| region(s).contains(c) implies free_cells(m.grid).contains(c) by {
        let x = at(template(), c);
        let k = choose|k: int| 0 <= k < s.len() && s[k] == x;
        assert(x == names()[k + 1]);
    }
    lemma_len_subset(region(s), free_cells(m.grid));
    lemma_alphabet();
    assert forall|c: Cell| free_cells(m.grid).contains(c) implies region(s).contains(c) by {
        let x = template()[c.1][c.0];
        assert(x != RIM && x != BLOCKED);
        let k = choose|k: int| 0 <= k < 14 && #[trigger] names()[k] == x;
        assert(s[k - 1] == x);
    }
    assert(region(s) =~= free_cells(m.grid));
}

/// The position of `number` on the board: targets are counted from 1 row by
/// row, seven to a row, and lie on every second cell of every second row.
pub fn number_to_coordinate(number: u8) -> (c: Coordinate)
    requires
        number >= 1,
    ensures
        cell_of(c) == target_cell(number as int),
{
    let n: usize = (number - 1) as usize;
    ((n % 7 + 1) * 2, (n / 7 + 1) * 2)
}

/// The grid before any piece is placed.
fn initial_state() -> (state: Vec<Vec<char>>)
    ensures
        grid_of(state@) == initial_grid(),
{
    let mut state: Vec<Vec<char>> = Vec::new();
    let mut row: usize = 0;
    while row < SIZE
        invariant
            row <= SIZE,
            state@.len() == row,
            forall|r: int| 0 <= r < row ==> (#[trigger] state@[r])@ == initial_grid()[r],
        decreases SIZE - row,
    {
        let mut cells: Vec<char> = Vec::new();
        let mut col: usize = 0;
        while col < SIZE
            invariant
                row < SIZE,
                col <= SIZE,
                cells@.len() == col,
                forall|c: int| 0 <= c < col ==> cells@[c] == initial_grid()[row as int][c],
            decreases SIZE - col,
        {
            let printed: char = template_cell(row, col);
            if printed == RIM {
                cells.push(RIM);
            } else if printed != BLOCKED {
                cells.push(FREE);
            } else {
                cells.push(BLOCKED);
            }
            col += 1;
        }
        assert(cells@ =~= initial_grid()[row as int]);
        state.push(cells);
        row += 1;
    }
    assert(grid_of(state@) =~= initial_grid());
    state
}

/// The symbols of all pieces but the rim, in their order.
fn placeable_names() -> (symbols: Vec<char>)
    ensures
        symbols@ == names().subrange(1, 14),
{
    let mut symbols: Vec<char> = Vec::new();
    let mut k: usize = 1;
    while k < 14
        invariant
            1 <= k <= 14,
            symbols@ == names().subrange(1, k as int),
        decreases 14 - k,
    {
        symbols.push(PIECE_NAMES[k]);
        assert(symbols@ =~= names().subrange(1, k as int + 1));
        k += 1;
    }
    symbols
}

/// A copy of a grid.
fn copy_grid(state: &Vec<Vec<char>>) -> (copy: Vec<Vec<char>>)
    ensures
        grid_of(copy@) == grid_of(state@),
{
    let copy = state.clone();
    assert(grid_of(copy@) =~= grid_of(state@)) by {
        assert forall|r: int| 0 <= r < state@.len() implies grid_of(copy@)[r] =~= grid_of(
            state@,
        )[r] by {}
    }
    copy
}

impl BoardState {
    /// The states from which the search for `target` starts.
    ///
    /// The target piece marks a target by lying beside it. It is tried two
    /// rows above the target, one column to the right in its first
    /// orientation and one column to the left in its second; each try that
    /// fits gives one state, in that order, in which the target piece is on
    /// the board and all other pieces are left to place.
    pub fn new(target: u8) -> (roots: Vec<BoardState>)
        requires
            target >= 1,
        ensures
            board_models(roots@) == root_models(target as int),
            roots@.len() <= 2,
            forall|k: int| 0 <= k < roots@.len() ==> (#[trigger] roots@[k])@.wf(),
            forall|k: int| 0 <= k < roots@.len() ==> (#[trigger] roots@[k])@.anchored(),
            forall|k: int| 0 <= k < roots@.len() ==> (#[trigger] roots@[k])@.balanced(),
            forall|k: int| 0 <= k < roots@.len() ==> (#[trigger] roots@[k])@.faithful(),
    {
        // Initialise the state
        let state = initial_state();
        let target_coordinate = number_to_coordinate(target);
        proof {
            lemma_names();
            lemma_target_piece_variants();
        }
        let target_piece = extract_piece_from_board(TARGET_PIECE, false);
        let mut result: Vec<BoardState> = Vec::new();

        // The top-left corner of the target piece, off set from the target coordinate
        let right: Coordinate = (target_coordinate.0 + 1, target_coordinate.1 - 2);
        let left: Coordinate = (target_coordinate.0 - 1, target_coordinate.1 - 2);
        assert(cell_of(right) == seed_anchor(target as int, 0));
        assert(cell_of(left) == seed_anchor(target as int, 1));

        let first = BoardState {
            pieces: Vec::new(),
            state: copy_grid(&state),
            anchor: right,
            pieces_to_place: placeable_names(),
        };
        proof {
            lemma_seed_wf(right);
            assert(first@ == seed_model(right));
            assert(first@.remaining[12] == TARGET_PIECE);
        }
        if let Ok(board_state) = first.place_piece(&target_piece, 0) {
            result.push(board_state);
        }
        let ghost after_first = board_models(result@);
        assert(after_first =~= match root_model(target as int, 0) {
            Some(m) => seq![m],
            None => Seq::empty(),
        });

        let second = BoardState {
            pieces: Vec::new(),
            state,
            anchor: left,
            pieces_to_place: placeable_names(),
        };
        proof {
            lemma_seed_wf(left);
            assert(second@ == seed_model(left));
            assert(second@.remaining[12] == TARGET_PIECE);
        }
        if let Ok(board_state) = second.place_piece(&target_piece, 1) {
            result.push(board_state);
        }
        assert(board_models(result@) =~= after_first + match root_model(target as int, 1) {
            Some(m) => seq![m],
            None => Seq::empty(),
        });
        result
    }
}

/// The states that the search starts from are well formed, their anchor is
/// their first free cell, their free cells are exactly as many as the pieces
/// left need, and their grid shows the printed board with the target piece
/// on it.
pub proof fn lemma_roots(target: int, k: int)
    requires
        1 <= target <= 255,
        0 <= k < root_models(target).len(),
    ensures
        root_models(target)[k].wf(),
        root_models(target)[k].anchored(),
        root_models(target)[k].balanced(),
        root_models(target)[k].faithful(),
{
    lemma_names();
    lemma_target_piece_variants();
    let piece = piece_model(TARGET_PIECE, false);
    let side: int = if root_model(target, 0) is Some && k == 0 {
        0
    } else {
        1
    };
    let a = seed_anchor(target, side);
    let anchor = (a.0 as usize, a.1 as usize);
    let seed = seed_model(anchor);
    lemma_seed_wf(anchor);
    assert(seed.remaining[12] == TARGET_PIECE);
    assert(root_models(target)[k] == root_model(target, side)->0);
    lemma_place_wf(seed, piece, side);
}

} // verus!
