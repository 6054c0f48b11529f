//! Board states: what they hold, when they are well formed, and what laying
//! one piece at the anchor of a state gives.

use crate::cells::{
    comes_before, filled, in_box, lemma_boxed_finite, lemma_filled_finite, lemma_shifted_len,
    shifted, Cell,
};
use crate::geometry::Coordinate;
use crate::piece::{lemma_piece_variants, piece_model, PieceModel, SpriteModel};
use crate::template::{
    is_piece_name, is_placeable, lemma_names, lemma_names_occur, names, occurrences, template,
    BLOCKED, FREE, RIM,
};
use vstd::prelude::*;
use vstd::set_lib::{lemma_set_disjoint_lens, lemma_set_empty_equivalency_len};

verus! {

/// A piece on the board: which piece, in which orientation, and the anchor
/// it was placed at.
#[derive(Debug, Clone, Copy)]
pub struct BoardPiece {
    /// The symbol of the piece.
    pub name: char,
    /// Position of the orientation among the variants of the piece.
    pub variant: usize,
    /// The anchor of the state the piece was placed in; the first set entry
    /// of the top row of the orientation lies on it.
    pub anchor: Coordinate,
}

/// A snapshot of the search: the grid, what has been placed, what is left
/// to place, and where the next piece has to go.
#[derive(Debug)]
pub struct BoardState {
    /// The pieces on the board, in the order in which they were placed.
    pub pieces: Vec<BoardPiece>,
    /// The grid, row by row: `x` for a blocked cell, `.` for a free cell, and
    /// the symbol of a piece for a cell that the piece covers.
    pub state: Vec<Vec<char>>,
    /// The next empty position.  The next piece's top-left corner will be placed here.
    pub anchor: Coordinate,
    /// The symbols of the pieces that are left to place.
    pub pieces_to_place: Vec<char>,
}

/// What a `BoardState` stands for.
pub struct BoardModel {
    /// The grid, indexed by row and then column.
    pub grid: Seq<Seq<char>>,
    /// The pieces on the board, in the order in which they were placed.
    pub placed: Seq<BoardPiece>,
    /// Where the next piece has to go.
    pub anchor: Coordinate,
    /// The symbols of the pieces that are left to place.
    pub remaining: Seq<char>,
}

/// The grid held by a vector of rows.
pub open spec fn grid_of(rows: Seq<Vec<char>>) -> Seq<Seq<char>> {
    Seq::new(rows.len(), |r: int| rows[r]@)
}

/// The cell that a coordinate names.
pub open spec fn cell_of(a: Coordinate) -> Cell {
    (a.0 as int, a.1 as int)
}

impl View for BoardState {
    type V = BoardModel;

    open spec fn view(&self) -> BoardModel {
        BoardModel {
            grid: grid_of(self.state@),
            placed: self.pieces@,
            anchor: self.anchor,
            remaining: self.pieces_to_place@,
        }
    }
}

/// The models of a vector of board states.
pub open spec fn board_models(states: Seq<BoardState>) -> Seq<BoardModel> {
    Seq::new(states.len(), |k: int| states[k]@)
}

/// Whether `g` has seventeen rows of seventeen cells.
pub open spec fn is_board(g: Seq<Seq<char>>) -> bool {
    &&& g.len() == 17
    &&& forall|r: int| 0 <= r < 17 ==> (#[trigger] g[r]).len() == 17
}

/// The character of grid `g` at cell `c`.
pub open spec fn at(g: Seq<Seq<char>>, c: Cell) -> char {
    g[c.1][c.0]
}

/// The cells of `g` that are playable and not covered.
pub open spec fn free_cells(g: Seq<Seq<char>>) -> Set<Cell> {
    Set::new(|c: Cell| in_box(c, 17, 17) && at(g, c) == FREE)
}

/// Whether `a` is the first free cell of `g` in row-major order.
pub open spec fn is_first_free(g: Seq<Seq<char>>, a: Cell) -> bool {
    &&& free_cells(g).contains(a)
    &&& forall|c: Cell| #[trigger] free_cells(g).contains(c) ==> !comes_before(c, a)
}

/// The first free cell of `g` in row-major order.
pub open spec fn first_free(g: Seq<Seq<char>>) -> Coordinate {
    choose|a: Coordinate| is_first_free(g, cell_of(a))
}

/// The board cell that entry `c` of the matrix of `sprite` covers when the
/// sprite is laid down at `anchor`.
pub open spec fn spot(sprite: SpriteModel, anchor: Cell, c: Cell) -> Cell {
    (anchor.0 + c.0 - sprite.top_left, anchor.1 + c.1)
}

/// The entry of the matrix of `sprite` that lies on board cell `b` when the
/// sprite is laid down at `anchor`.
pub open spec fn entry_over(sprite: SpriteModel, anchor: Cell, b: Cell) -> Cell {
    (b.0 - anchor.0 + sprite.top_left, b.1 - anchor.1)
}

/// The board cells that `sprite` covers when it is laid down at `anchor`.
pub open spec fn footprint(sprite: SpriteModel, anchor: Cell) -> Set<Cell> {
    Set::new(|b: Cell| filled(sprite.cells).contains(entry_over(sprite, anchor, b)))
}

/// Whether `sprite`, laid down at `anchor`, stays on the board and covers
/// free cells only.
pub open spec fn fits(g: Seq<Seq<char>>, sprite: SpriteModel, anchor: Cell) -> bool {
    forall|b: Cell| #[trigger]
        footprint(sprite, anchor).contains(b) ==> in_box(b, 17, 17) && at(g, b) == FREE
}

/// The grid `g` with the cells under `sprite` at `anchor` marked with `name`.
pub open spec fn stamped(g: Seq<Seq<char>>, sprite: SpriteModel, anchor: Cell, name: char) -> Seq<
    Seq<char>,
> {
    Seq::new(
        17,
        |r: int|
            Seq::new(
                17,
                |c: int|
                    if footprint(sprite, anchor).contains((c, r)) {
                        name
                    } else {
                        g[r][c]
                    },
            ),
    )
}

/// The sequence `s` without the entries equal to `name`.
pub open spec fn without(s: Seq<char>, name: char) -> Seq<char>
    decreases s.len(),
{
    if s.len() == 0 {
        s
    } else if s.last() == name {
        without(s.drop_last(), name)
    } else {
        without(s.drop_last(), name).push(s.last())
    }
}

/// How many board cells the pieces with the symbols `s` cover together.
pub open spec fn inventory(s: Seq<char>) -> nat
    decreases s.len(),
{
    if s.len() == 0 {
        0
    } else {
        inventory(s.drop_last()) + occurrences(s.last()).len()
    }
}

/// The orientation that the placed piece `p` lies in.
pub open spec fn sprite_of(p: BoardPiece) -> SpriteModel {
    piece_model(p.name, false).variants[p.variant as int]
}

/// The board cells that the placed piece `p` covers.
pub open spec fn cover(p: BoardPiece) -> Set<Cell> {
    footprint(sprite_of(p), cell_of(p.anchor))
}

/// Whether the placed piece `p` names an orientation of a piece and the
/// cells it covers are on the board and carry its symbol in `g`.
pub open spec fn placed_ok(g: Seq<Seq<char>>, p: BoardPiece) -> bool {
    &&& is_placeable(p.name)
    &&& p.variant < piece_model(p.name, false).variants.len()
    &&& forall|b: Cell| #[trigger] cover(p).contains(b) ==> in_box(b, 17, 17) && at(g, b) == p.name
}

/// Whether one of the placed pieces `placed` has the symbol `name`.
pub open spec fn is_placed(placed: Seq<BoardPiece>, name: char) -> bool {
    exists|k: int| 0 <= k < placed.len() && (#[trigger] placed[k]).name == name
}

/// Whether one of the placed pieces `placed` has the symbol `name` and
/// covers the cell `c`.
pub open spec fn covered_by(placed: Seq<BoardPiece>, c: Cell, name: char) -> bool {
    exists|k: int|
        0 <= k < placed.len() && (#[trigger] placed[k]).name == name && cover(placed[k]).contains(c)
}

/// The grid before any piece is placed: the rim and the blocked cells as
/// printed, every other cell free.
pub open spec fn initial_grid() -> Seq<Seq<char>> {
    Seq::new(
        17,
        |r: int|
            Seq::new(
                17,
                |c: int|
                    if template()[r][c] == RIM {
                        RIM
                    } else if template()[r][c] == BLOCKED {
                        BLOCKED
                    } else {
                        FREE
                    },
            ),
    )
}

impl BoardModel {
    /// The invariant of a board state.
    ///
    /// The grid is a board, and the anchor is small enough for the sums that
    /// placing computes. Every piece but the rim is either left to place or
    /// on the board, once. Each piece on the board lies in one of its
    /// orientations and covers cells that carry its symbol. The free cells
    /// are at least as many as the pieces left to place need, so that the
    /// board cannot be full while pieces are left.
    pub open spec fn wf(self) -> bool {
        &&& is_board(self.grid)
        &&& self.anchor.0 + 17 <= usize::MAX
        &&& self.anchor.1 + 17 <= usize::MAX
        &&& self.remaining.no_duplicates()
        &&& forall|k: int| 0 <= k < self.remaining.len() ==> is_placeable(#[trigger] self.remaining[k])
        &&& forall|k: int| 0 <= k < self.placed.len() ==> placed_ok(self.grid, #[trigger] self.placed[k])
        &&& forall|a: int, b: int|
            0 <= a < b < self.placed.len() ==> (#[trigger] self.placed[a]).name != (
            #[trigger] self.placed[b]).name
        &&& forall|k: int|
            0 <= k < self.placed.len() ==> !self.remaining.contains((#[trigger] self.placed[k]).name)
        &&& forall|n: char|
            is_placeable(n) ==> #[trigger] self.remaining.contains(n) || is_placed(self.placed, n)
        &&& free_cells(self.grid).finite()
        &&& free_cells(self.grid).len() >= inventory(self.remaining)
    }

    /// Whether every piece is on the board.
    pub open spec fn solved(self) -> bool {
        self.remaining.len() == 0
    }

    /// Whether the anchor is the first free cell of the grid, as long as
    /// pieces are left to place.
    pub open spec fn anchored(self) -> bool {
        !self.solved() ==> is_first_free(self.grid, cell_of(self.anchor))
    }

    /// Whether the free cells are exactly as many as the pieces left to
    /// place need.
    pub open spec fn balanced(self) -> bool {
        free_cells(self.grid).len() == inventory(self.remaining)
    }

    /// Whether no cell of the grid is free.
    pub open spec fn full(self) -> bool {
        forall|c: Cell| in_box(c, 17, 17) ==> #[trigger] at(self.grid, c) != FREE
    }

    /// Whether the grid shows the printed board with the pieces on it and
    /// nothing else: every cell is as it was before any piece was placed, or
    /// it was free then and a piece on the board covers it and gives it its
    /// symbol.
    pub open spec fn faithful(self) -> bool {
        forall|c: Cell|
            in_box(c, 17, 17) ==> #[trigger] at(self.grid, c) == at(initial_grid(), c) || (at(
                initial_grid(),
                c,
            ) == FREE && covered_by(self.placed, c, at(self.grid, c)))
    }
}

/// The state that follows `m` when the orientation `variant` of `piece` is
/// laid down at the anchor of `m`, if it fits there.
///
/// The piece leaves the pieces left to place. While pieces are left, the new
/// anchor is the first free cell of the new grid; otherwise the anchor stays.
pub open spec fn place_model(m: BoardModel, piece: PieceModel, variant: int) -> Option<BoardModel> {
    let sprite = piece.variants[variant];
    if fits(m.grid, sprite, cell_of(m.anchor)) {
        let grid = stamped(m.grid, sprite, cell_of(m.anchor), piece.name);
        let remaining = without(m.remaining, piece.name);
        Some(
            BoardModel {
                grid,
                placed: m.placed.push(
                    BoardPiece { name: piece.name, variant: variant as usize, anchor: m.anchor },
                ),
                anchor: if remaining.len() == 0 {
                    m.anchor
                } else {
                    first_free(grid)
                },
                remaining,
            },
        )
    } else {
        None
    }
}

/// Removing a symbol never makes a sequence longer, and makes it shorter
/// where the symbol is in it.
pub proof fn lemma_without_shrinks(s: Seq<char>, name: char)
    ensures
        without(s, name).len() <= s.len(),
        s.contains(name) ==> without(s, name).len() < s.len(),
    decreases s.len(),
{
    if s.len() > 0 {
        lemma_without_shrinks(s.drop_last(), name);
        if s.contains(name) && s.last() != name {
            let k = choose|k: int| 0 <= k < s.len() && s[k] == name;
            assert(s.drop_last()[k] == name);
        }
    }
}

/// What is left after removing a symbol from a sequence without repeats:
/// the other entries, still without repeats, covering as many cells less as
/// the removed piece covers.
pub proof fn lemma_without(s: Seq<char>, name: char)
    requires
        s.no_duplicates(),
    ensures
        forall|x: char| #[trigger] without(s, name).contains(x) <==> s.contains(x) && x != name,
        without(s, name).no_duplicates(),
        s.contains(name) ==> inventory(without(s, name)) + occurrences(name).len() == inventory(s),
        !s.contains(name) ==> without(s, name) == s,
    decreases s.len(),
{
    let out = without(s, name);
    if s.len() > 0 {
        let front = s.drop_last();
        let rest = without(front, name);
        lemma_without(front, name);
        assert forall|x: char| #[trigger] out.contains(x) <==> s.contains(x) && x != name by {
            if out.contains(x) {
                let k = choose|k: int| 0 <= k < out.len() && out[k] == x;
                if k < rest.len() {
                    assert(rest[k] == x);
                    assert(rest.contains(x));
                    let n = choose|n: int| 0 <= n < front.len() && front[n] == x;
                    assert(s[n] == x);
                } else {
                    assert(s[s.len() - 1] == x);
                }
            }
            if s.contains(x) && x != name {
                let n = choose|n: int| 0 <= n < s.len() && s[n] == x;
                if n < front.len() {
                    assert(front[n] == x);
                    assert(front.contains(x));
                    assert(rest.contains(x));
                    let k = choose|k: int| 0 <= k < rest.len() && rest[k] == x;
                    assert(out[k] == x);
                } else {
                    assert(out[out.len() - 1] == x);
                }
            }
        }
        assert(!front.contains(s.last())) by {
            if front.contains(s.last()) {
                let n = choose|n: int| 0 <= n < front.len() && front[n] == s.last();
                assert(s[n] == s[s.len() - 1]);
            }
        }
        if s.last() != name {
            assert(!rest.contains(s.last()));
            assert forall|a: int, b: int| 0 <= a < out.len() && 0 <= b < out.len() && a != b
                implies out[a] != out[b] by {
                if a < rest.len() {
                    assert(rest.contains(out[a]));
                }
                if b < rest.len() {
                    assert(rest.contains(out[b]));
                }
            }
            if s.contains(name) {
                let n = choose|n: int| 0 <= n < s.len() && s[n] == name;
                assert(front[n] == name);
                assert(out.drop_last() =~= rest);
            } else {
                assert(!front.contains(name)) by {
                    if front.contains(name) {
                        let n = choose|n: int| 0 <= n < front.len() && front[n] == name;
                        assert(s[n] == name);
                    }
                }
                assert(out =~= s);
            }
        } else {
            assert(rest == front);
        }
    }
}

/// A sprite laid down anywhere covers as many cells as its matrix has set
/// entries.
pub proof fn lemma_footprint(sprite: SpriteModel, anchor: Cell)
    requires
        sprite.wf(),
    ensures
        footprint(sprite, anchor).finite(),
        footprint(sprite, anchor).len() == filled(sprite.cells).len(),
{
    let cells = filled(sprite.cells);
    lemma_filled_finite(sprite.cells);
    lemma_shifted_len(cells, anchor.0 - sprite.top_left, anchor.1);
    assert(footprint(sprite, anchor) =~= shifted(cells, anchor.0 - sprite.top_left, anchor.1));
}

/// Laying a sprite that fits on a board takes the cells it covers, and no
/// others, out of the free cells.
pub proof fn lemma_stamp_room(g: Seq<Seq<char>>, sprite: SpriteModel, anchor: Cell, name: char)
    requires
        is_board(g),
        sprite.wf(),
        fits(g, sprite, anchor),
        name != FREE,
    ensures
        is_board(stamped(g, sprite, anchor, name)),
        free_cells(g).finite(),
        free_cells(stamped(g, sprite, anchor, name)).finite(),
        free_cells(stamped(g, sprite, anchor, name)).len() + filled(sprite.cells).len()
            == free_cells(g).len(),
        forall|c: Cell|
            free_cells(stamped(g, sprite, anchor, name)).contains(c) <==> free_cells(g).contains(c)
                && !footprint(sprite, anchor).contains(c),
{
    let after = stamped(g, sprite, anchor, name);
    let under = footprint(sprite, anchor);
    lemma_footprint(sprite, anchor);
    lemma_boxed_finite(free_cells(g), 17, 17);
    lemma_boxed_finite(free_cells(after), 17, 17);
    assert forall|c: Cell|
        free_cells(after).contains(c) <==> free_cells(g).contains(c) && !under.contains(c) by {
        if in_box(c, 17, 17) {
            assert(at(after, c) == if under.contains(c) {
                name
            } else {
                at(g, c)
            });
        }
    }
    assert(free_cells(after).disjoint(under));
    assert(free_cells(after) + under =~= free_cells(g)) by {
        assert forall|c: Cell| under.contains(c) implies free_cells(g).contains(c) by {}
    }
    lemma_set_disjoint_lens(free_cells(after), under);
}

/// Every piece that the solver places covers at least one cell.
pub proof fn lemma_piece_size(name: char)
    requires
        is_piece_name(name),
    ensures
        occurrences(name).finite(),
        occurrences(name).len() >= 1,
{
    lemma_names_occur();
    lemma_boxed_finite(occurrences(name), 17, 17);
    let k = choose|k: int| 0 <= k < 14 && #[trigger] names()[k] == name;
    let c = choose|c: Cell| occurrences(names()[k]).contains(c);
    assert(occurrences(name).contains(c));
    lemma_set_empty_equivalency_len(occurrences(name));
}

/// A grid with a free cell has a first free cell.
proof fn lemma_first_free_exists(g: Seq<Seq<char>>, some: Cell) -> (a: Coordinate)
    requires
        free_cells(g).contains(some),
    ensures
        is_first_free(g, cell_of(a)),
    decreases some.1 * 17 + some.0,
{
    if exists|c: Cell| free_cells(g).contains(c) && comes_before(c, some) {
        let c = choose|c: Cell| free_cells(g).contains(c) && comes_before(c, some);
        lemma_first_free_exists(g, c)
    } else {
        (some.0 as usize, some.1 as usize)
    }
}

/// A well-formed state with pieces left to place has a free cell, and so a
/// first free cell.
pub proof fn lemma_room_left(m: BoardModel)
    requires
        m.wf(),
        m.remaining.len() > 0,
    ensures
        exists|c: Cell| free_cells(m.grid).contains(c),
        is_first_free(m.grid, cell_of(first_free(m.grid))),
{
    let last = m.remaining.last();
    assert(is_placeable(m.remaining[m.remaining.len() - 1]));
    let k = choose|k: int| 1 <= k < 14 && #[trigger] names()[k] == last;
    lemma_piece_size(last);
    assert(inventory(m.remaining) >= 1);
    lemma_set_empty_equivalency_len(free_cells(m.grid));
    let some = choose|c: Cell| free_cells(m.grid).contains(c);
    let least = lemma_first_free_exists(m.grid, some);
    assert(is_first_free(m.grid, cell_of(least)));
}

/// A grid has one first free cell at most.
pub proof fn lemma_first_free_unique(g: Seq<Seq<char>>, a: Coordinate)
    requires
        is_first_free(g, cell_of(a)),
    ensures
        a == first_free(g),
{
    let b = first_free(g);
    assert(is_first_free(g, cell_of(b)));
    assert(!comes_before(cell_of(a), cell_of(b)));
    assert(!comes_before(cell_of(b), cell_of(a)));
}

/// Placing a piece that is left to place in a well-formed state gives a
/// well-formed state, whose anchor is its first free cell as long as pieces
/// are left. Where the free cells were exactly as many as the pieces left
/// needed, they still are; where the grid showed the printed board with the
/// pieces on it and nothing else, it still does.
pub proof fn lemma_place_wf(m: BoardModel, piece: PieceModel, variant: int)
    requires
        m.wf(),
        piece == piece_model(piece.name, false),
        m.remaining.contains(piece.name),
        0 <= variant < piece.variants.len(),
        place_model(m, piece, variant) is Some,
    ensures
        place_model(m, piece, variant)->0.wf(),
        place_model(m, piece, variant)->0.anchored(),
        m.balanced() ==> place_model(m, piece, variant)->0.balanced(),
        m.faithful() ==> place_model(m, piece, variant)->0.faithful(),
{
    let next = place_model(m, piece, variant)->0;
    let sprite = piece.variants[variant];
    let anchor = cell_of(m.anchor);
    let name = piece.name;
    let at_name = choose|k: int| 0 <= k < m.remaining.len() && m.remaining[k] == name;
    assert(is_placeable(m.remaining[at_name]));
    let index = choose|k: int| 1 <= k < 14 && #[trigger] names()[k] == name;
    lemma_names();
    assert(is_piece_name(name));
    lemma_piece_variants(name);
    assert(sprite.wf());
    lemma_stamp_room(m.grid, sprite, anchor, name);
    lemma_without(m.remaining, name);
    let newly = BoardPiece { name, variant: variant as usize, anchor: m.anchor };
    assert(sprite_of(newly) == sprite);
    assert forall|k: int| 0 <= k < next.placed.len() implies placed_ok(
        next.grid,
        #[trigger] next.placed[k],
    ) by {
        let p = next.placed[k];
        if k < m.placed.len() {
            assert(placed_ok(m.grid, m.placed[k]));
            assert(!m.remaining.contains(m.placed[k].name));
            let i = choose|i: int| 1 <= i < 14 && #[trigger] names()[i] == p.name;
            assert forall|b: Cell| #[trigger] cover(p).contains(b) implies in_box(b, 17, 17)
                && at(next.grid, b) == p.name by {
                assert(at(m.grid, b) == p.name);
                assert(!footprint(sprite, anchor).contains(b));
            }
        } else {
            assert(p == newly);
            assert forall|b: Cell| #[trigger] cover(p).contains(b) implies in_box(b, 17, 17)
                && at(next.grid, b) == p.name by {
                assert(footprint(sprite, anchor).contains(b));
            }
        }
    }
    assert forall|a: int, b: int| 0 <= a < b < next.placed.len() implies (
    #[trigger] next.placed[a]).name != (#[trigger] next.placed[b]).name by {
        if b == m.placed.len() {
            assert(!m.remaining.contains(m.placed[a].name));
        }
    }
    assert forall|k: int| 0 <= k < next.placed.len() implies !next.remaining.contains(
        (#[trigger] next.placed[k]).name,
    ) by {
        if k < m.placed.len() {
            assert(!m.remaining.contains(m.placed[k].name));
        }
    }
    assert forall|n: char| is_placeable(n) implies #[trigger] next.remaining.contains(n)
        || is_placed(next.placed, n) by {
        if n == name {
            assert(next.placed[m.placed.len() as int].name == n);
        } else if m.remaining.contains(n) {
        } else {
            assert(is_placed(m.placed, n));
            let k = choose|k: int| 0 <= k < m.placed.len() && (#[trigger] m.placed[k]).name == n;
            assert(next.placed[k].name == n);
        }
    }
    assert forall|k: int| 0 <= k < next.remaining.len() implies is_placeable(
        #[trigger] next.remaining[k],
    ) by {
        assert(next.remaining.contains(next.remaining[k]));
        let n = choose|n: int| 0 <= n < m.remaining.len() && m.remaining[n] == next.remaining[k];
        assert(is_placeable(m.remaining[n]));
    }
    if next.remaining.len() > 0 {
        assert(next.anchor == first_free(next.grid));
        let probe = BoardModel { anchor: (0, 0), ..next };
        lemma_room_left(probe);
        assert(in_box(cell_of(next.anchor), 17, 17));
    }
    if m.faithful() {
        assert forall|c: Cell| in_box(c, 17, 17) implies #[trigger] at(next.grid, c) == at(
            initial_grid(),
            c,
        ) || (at(initial_grid(), c) == FREE && covered_by(next.placed, c, at(next.grid, c))) by {
            assert(at(m.grid, c) == at(initial_grid(), c) || (at(initial_grid(), c) == FREE
                && covered_by(m.placed, c, at(m.grid, c))));
            if footprint(sprite, anchor).contains(c) {
                assert(at(m.grid, c) == FREE);
                assert(next.placed[m.placed.len() as int] == newly);
                assert(cover(newly).contains(c));
            } else if at(m.grid, c) != at(initial_grid(), c) {
                let k = choose|k: int|
                    0 <= k < m.placed.len() && (#[trigger] m.placed[k]).name == at(m.grid, c)
                        && cover(m.placed[k]).contains(c);
                assert(next.placed[k] == m.placed[k]);
            }
        }
    }
}

/// Two pieces on the board of a well-formed state never cover the same cell.
pub proof fn lemma_no_overlap(m: BoardModel, a: int, b: int)
    requires
        m.wf(),
        0 <= a < m.placed.len(),
        0 <= b < m.placed.len(),
        a != b,
    ensures
        cover(m.placed[a]).disjoint(cover(m.placed[b])),
{
    assert(placed_ok(m.grid, m.placed[a]));
    assert(placed_ok(m.grid, m.placed[b]));
    if a < b {
        assert(m.placed[a].name != m.placed[b].name);
    } else {
        assert(m.placed[b].name != m.placed[a].name);
    }
    assert forall|c: Cell| cover(m.placed[a]).contains(c) implies !cover(m.placed[b]).contains(
        c,
    ) by {
        assert(at(m.grid, c) == m.placed[a].name);
    }
}

/// A state with every piece on the board whose free cells were exactly as
/// many as the pieces left needed has no free cell.
pub proof fn lemma_full(m: BoardModel)
    requires
        m.wf(),
        m.balanced(),
        m.solved(),
    ensures
        m.full(),
{
    assert(inventory(m.remaining) == 0);
    lemma_set_empty_equivalency_len(free_cells(m.grid));
    assert forall|c: Cell| in_box(c, 17, 17) implies #[trigger] at(m.grid, c) != FREE by {
        if at(m.grid, c) == FREE {
            assert(free_cells(m.grid).contains(c));
        }
    }
}

/// A piece placed at the first free cell of a state covers that cell, so
/// the first free cell of the state that follows comes strictly later in
/// row-major order.
pub proof fn lemma_anchor_advances(m: BoardModel, piece: PieceModel, variant: int)
    requires
        m.wf(),
        piece == piece_model(piece.name, false),
        m.remaining.contains(piece.name),
        0 <= variant < piece.variants.len(),
        m.anchored(),
        place_model(m, piece, variant) is Some,
        !place_model(m, piece, variant)->0.solved(),
    ensures
        footprint(piece.variants[variant], cell_of(m.anchor)).contains(cell_of(m.anchor)),
        comes_before(cell_of(m.anchor), cell_of(place_model(m, piece, variant)->0.anchor)),
{
    let next = place_model(m, piece, variant)->0;
    let sprite = piece.variants[variant];
    let anchor = cell_of(m.anchor);
    let name = piece.name;
    let at_name = choose|k: int| 0 <= k < m.remaining.len() && m.remaining[k] == name;
    assert(is_placeable(m.remaining[at_name]));
    let index = choose|k: int| 1 <= k < 14 && #[trigger] names()[k] == name;
    lemma_names();
    assert(is_piece_name(name));
    lemma_piece_variants(name);
    assert(sprite.wf() && sprite.anchored());
    lemma_place_wf(m, piece, variant);
    lemma_stamp_room(m.grid, sprite, anchor, name);
    let corner: Cell = (sprite.top_left, 0);
    assert(filled(sprite.cells).contains(corner));
    assert(entry_over(sprite, anchor, anchor) == corner);
    assert(footprint(sprite, anchor).contains(anchor));
    let later = cell_of(next.anchor);
    assert(free_cells(next.grid).contains(later));
    assert(free_cells(m.grid).contains(later));
    assert(!footprint(sprite, anchor).contains(later));
}

} // verus!
