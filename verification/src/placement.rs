//! Laying a piece on the grid of a board state.

use crate::board::{
    at, cell_of, entry_over, fits, footprint, free_cells, grid_of, is_board, is_first_free,
    lemma_first_free_unique, lemma_place_wf, lemma_room_left, place_model, spot, stamped, without,
    BoardPiece, BoardState,
};
use crate::cells::{comes_before, filled, in_box, Cell};
use crate::geometry::{cell_list, matrix, Coordinate};
use crate::piece::{lemma_piece_variants, Piece, Sprite, SpriteModel};
use crate::template::{FREE, SIZE};
use vstd::prelude::*;

verus! {

/// Whether entry `e` of the matrix of `sprite` is set and lies, with the
/// sprite laid down at `anchor`, off the board or on a cell that is not free.
pub open spec fn misfit(g: Seq<Seq<char>>, sprite: SpriteModel, anchor: Cell, e: Cell) -> bool {
    &&& filled(sprite.cells).contains(e)
    &&& !(in_box(spot(sprite, anchor, e), 17, 17) && at(g, spot(sprite, anchor, e)) == FREE)
}

/// Whether `e` is the first misfit of `sprite` at `anchor` when its matrix
/// is read row by row.
pub open spec fn is_first_misfit(
    g: Seq<Seq<char>>,
    sprite: SpriteModel,
    anchor: Cell,
    e: Cell,
) -> bool {
    &&& misfit(g, sprite, anchor, e)
    &&& forall|c: Cell| #[trigger] misfit(g, sprite, anchor, c) ==> !comes_before(c, e)
}

/// Whether the listed entry number `k` of `sprite` is the first listed entry
/// that is a misfit at `anchor`.
pub open spec fn is_first_listed_misfit(
    g: Seq<Seq<char>>,
    sprite: SpriteModel,
    anchor: Cell,
    k: int,
) -> bool {
    &&& 0 <= k < sprite.coordinates.len()
    &&& misfit(g, sprite, anchor, sprite.coordinates[k])
    &&& forall|n: int| 0 <= n < k ==> !misfit(g, sprite, anchor, #[trigger] sprite.coordinates[n])
}

/// The grid `g` with the cells marked with `name` that lie under those
/// entries of `sprite` at `anchor` which come before entry `upto` in
/// row-major order.
pub open spec fn partly_stamped(
    g: Seq<Seq<char>>,
    sprite: SpriteModel,
    anchor: Cell,
    name: char,
    upto: Cell,
) -> Seq<Seq<char>> {
    Seq::new(
        17,
        |r: int|
            Seq::new(
                17,
                |c: int|
                    if footprint(sprite, anchor).contains((c, r)) && comes_before(
                        entry_over(sprite, anchor, (c, r)),
                        upto,
                    ) {
                        name
                    } else {
                        g[r][c]
                    },
            ),
    )
}

/// Whether `c` is among the first `k` entries of `list`.
pub open spec fn listed(list: Seq<Cell>, k: int, c: Cell) -> bool {
    exists|n: int| 0 <= n < k && #[trigger] list[n] == c
}

/// The grid `g` with the cells marked with `name` that lie under the first
/// `k` listed entries of `sprite` at `anchor`.
pub open spec fn list_stamped(
    g: Seq<Seq<char>>,
    sprite: SpriteModel,
    anchor: Cell,
    name: char,
    k: int,
) -> Seq<Seq<char>> {
    Seq::new(
        17,
        |r: int|
            Seq::new(
                17,
                |c: int|
                    if listed(sprite.coordinates, k, entry_over(sprite, anchor, (c, r))) {
                        name
                    } else {
                        g[r][c]
                    },
            ),
    )
}

/// The sequence `symbols` without the entries equal to `name`.
fn remove_name(symbols: &Vec<char>, name: char) -> (out: Vec<char>)
    ensures
        out@ == without(symbols@, name),
{
    let mut out: Vec<char> = Vec::new();
    let mut k: usize = 0;
    assert(symbols@.take(0) =~= Seq::<char>::empty());
    while k < symbols.len()
        invariant
            k <= symbols.len(),
            out@ == without(symbols@.take(k as int), name),
        decreases symbols.len() - k,
    {
        assert(symbols@.take(k as int + 1).drop_last() =~= symbols@.take(k as int));
        if symbols[k] != name {
            out.push(symbols[k]);
        }
        k += 1;
    }
    assert(symbols@.take(k as int) =~= symbols@);
    out
}

/// Finds the first free cell of a grid that has one.
fn first_free_cell(state: &Vec<Vec<char>>) -> (a: Coordinate)
    requires
        is_board(grid_of(state@)),
        exists|c: Cell| free_cells(grid_of(state@)).contains(c),
    ensures
        is_first_free(grid_of(state@), cell_of(a)),
        a.0 < SIZE,
        a.1 < SIZE,
{
    let ghost g = grid_of(state@);
    let mut y: usize = 0;
    while y < SIZE
        invariant
            y <= SIZE,
            g == grid_of(state@),
            is_board(g),
            forall|c: Cell| #[trigger] free_cells(g).contains(c) ==> !comes_before(c, (0, y as int)),
        decreases SIZE - y,
    {
        let mut x: usize = 0;
        while x < SIZE
            invariant
                y < SIZE,
                x <= SIZE,
                g == grid_of(state@),
                is_board(g),
                forall|c: Cell| #[trigger]
                    free_cells(g).contains(c) ==> !comes_before(c, (x as int, y as int)),
            decreases SIZE - x,
        {
            assert(g[y as int].len() == 17);
            if state[y][x] == FREE {
                assert(free_cells(g).contains((x as int, y as int)));
                return (x, y);
            }
            assert(at(g, (x as int, y as int)) != FREE);
            x += 1;
        }
        y += 1;
    }
    proof {
        let c = choose|c: Cell| free_cells(g).contains(c);
        assert(!comes_before(c, (0, 17)));
        assert(false);
    }
    (0, 0)
}

impl BoardState {
    /// Tests whether `sprite`, laid down at the anchor, leaves the board or
    /// covers a cell that is not free, and marks the cells it covers in
    /// `state` with `piece_name` on the way.
    ///
    /// `state` must come in as a copy of the grid of `self`. When the result
    /// is `false`, it goes out as that grid with the sprite marked on it;
    /// when it is `true`, it goes out with the marks of the entries before
    /// the first misfit.
    ///
    /// This goes through every entry of the matrix of the sprite, row by
    /// row.
    pub fn detect_overlap(
        &self,
        state: &mut Vec<Vec<char>>,
        piece_name: char,
        sprite: &Sprite,
    ) -> (overlap: bool)
        requires
            is_board(self@.grid),
            self.anchor.0 + 17 <= usize::MAX,
            self.anchor.1 + 17 <= usize::MAX,
            grid_of(old(state)@) == self@.grid,
        ensures
            overlap == !fits(self@.grid, sprite@, cell_of(self.anchor)),
            !overlap ==> grid_of(final(state)@) == stamped(
                self@.grid,
                sprite@,
                cell_of(self.anchor),
                piece_name,
            ),
            overlap ==> exists|e: Cell|
                is_first_misfit(self@.grid, sprite@, cell_of(self.anchor), e) && grid_of(
                    final(state)@,
                ) == #[trigger] partly_stamped(
                    self@.grid,
                    sprite@,
                    cell_of(self.anchor),
                    piece_name,
                    e,
                ),
    {
        let value = sprite.value();
        let top_left: usize = sprite.top_left();
        let ghost g = self@.grid;
        let ghost model = sprite@;
        let ghost anchor = cell_of(self.anchor);
        let ghost under = footprint(model, anchor);
        let mut j: usize = 0;
        assert forall|r: int| 0 <= r < 17 implies (#[trigger] state@[r])@.len() == 17 by {
            assert(grid_of(state@)[r] == state@[r]@);
        }
        assert(grid_of(state@) =~= partly_stamped(g, model, anchor, piece_name, (0, 0))) by {
            assert forall|r: int| 0 <= r < 17 implies grid_of(state@)[r] =~= partly_stamped(
                g,
                model,
                anchor,
                piece_name,
                (0, 0),
            )[r] by {}
        }
        while j < value.len()
            invariant
                j <= value.len(),
                g == self@.grid,
                is_board(g),
                model == sprite@,
                model.wf(),
                matrix(value@) == model.cells,
                top_left == model.top_left,
                anchor == cell_of(self.anchor),
                self.anchor.0 + 17 <= usize::MAX,
                self.anchor.1 + 17 <= usize::MAX,
                under == footprint(model, anchor),
                state@.len() == 17,
                forall|r: int| 0 <= r < 17 ==> (#[trigger] state@[r])@.len() == 17,
                forall|b: Cell| #[trigger]
                    under.contains(b) && comes_before(entry_over(model, anchor, b), (0, j as int))
                        ==> in_box(b, 17, 17) && at(g, b) == FREE,
                grid_of(state@) == partly_stamped(g, model, anchor, piece_name, (0, j as int)),
            decreases value.len() - j,
        {
            let mut i: usize = 0;
            assert(model.cells[j as int].len() == model.cells[0].len());
            while i < value[j].len()
                invariant
                    j < value.len(),
                    i <= value@[j as int]@.len(),
                    g == self@.grid,
                    is_board(g),
                    model == sprite@,
                    model.wf(),
                    matrix(value@) == model.cells,
                    top_left == model.top_left,
                    anchor == cell_of(self.anchor),
                    self.anchor.0 + 17 <= usize::MAX,
                    self.anchor.1 + 17 <= usize::MAX,
                    under == footprint(model, anchor),
                    state@.len() == 17,
                    forall|r: int| 0 <= r < 17 ==> (#[trigger] state@[r])@.len() == 17,
                    forall|b: Cell| #[trigger]
                        under.contains(b) && comes_before(
                            entry_over(model, anchor, b),
                            (i as int, j as int),
                        ) ==> in_box(b, 17, 17) && at(g, b) == FREE,
                    grid_of(state@) == partly_stamped(
                        g,
                        model,
                        anchor,
                        piece_name,
                        (i as int, j as int),
                    ),
                decreases value@[j as int]@.len() - i,
            {
                let ghost here: Cell = (i as int, j as int);
                let ghost next: Cell = (i as int + 1, j as int);
                assert(model.cells[j as int] == value@[j as int]@);
                if value[j][i] {
                    assert(filled(model.cells).contains(here));
                    let new_x: usize = self.anchor.0 + i;
                    let ghost b = spot(model, anchor, here);
                    assert(entry_over(model, anchor, b) == here);
                    assert(under.contains(b));
                    proof {
                        assert forall|c: Cell| #[trigger]
                            misfit(g, model, anchor, c) implies !comes_before(c, here) by {
                            let under_c = spot(model, anchor, c);
                            assert(entry_over(model, anchor, under_c) == c);
                            assert(under.contains(under_c));
                        }
                    }
                    if new_x < top_left {
                        assert(!in_box(b, 17, 17));
                        assert(is_first_misfit(g, model, anchor, here));
                        return true;
                    }
                    let x: usize = new_x - top_left;
                    let y: usize = self.anchor.1 + j;
                    assert(b == (x as int, y as int));
                    if x >= SIZE || y >= SIZE {
                        assert(!in_box(b, 17, 17));
                        assert(is_first_misfit(g, model, anchor, here));
                        return true;
                    }
                    assert(g[y as int].len() == 17);
                    if self.state[y][x] != FREE {
                        assert(at(g, b) != FREE);
                        assert(is_first_misfit(g, model, anchor, here));
                        return true;
                    }
                    let ghost before = grid_of(state@);
                    state[y][x] = piece_name;
                    proof {
                        let after = grid_of(state@);
                        let goal = partly_stamped(g, model, anchor, piece_name, next);
                        assert forall|r: int| 0 <= r < 17 implies after[r] =~= goal[r] by {
                            assert forall|c: int| 0 <= c < 17 implies after[r][c] == goal[r][c] by {
                                assert(before[r][c] == partly_stamped(
                                    g,
                                    model,
                                    anchor,
                                    piece_name,
                                    here,
                                )[r][c]);
                            }
                        }
                        assert(after =~= goal);
                    }
                } else {
                    proof {
                        let now = grid_of(state@);
                        let goal = partly_stamped(g, model, anchor, piece_name, next);
                        assert forall|r: int| 0 <= r < 17 implies now[r] =~= goal[r] by {
                            assert forall|c: int| 0 <= c < 17 implies now[r][c] == goal[r][c] by {
                                assert(now[r][c] == partly_stamped(
                                    g,
                                    model,
                                    anchor,
                                    piece_name,
                                    here,
                                )[r][c]);
                            }
                        }
                        assert(now =~= goal);
                    }
                }
                i += 1;
            }
            proof {
                let now = grid_of(state@);
                let goal = partly_stamped(g, model, anchor, piece_name, (0, j as int + 1));
                let ended: Cell = (i as int, j as int);
                assert forall|b: Cell| #[trigger]
                    under.contains(b) && comes_before(
                        entry_over(model, anchor, b),
                        (0, j as int + 1),
                    ) implies in_box(b, 17, 17) && at(g, b) == FREE by {
                    let e = entry_over(model, anchor, b);
                    assert(model.cells[e.1].len() == model.cells[0].len());
                    assert(comes_before(e, ended));
                }
                assert forall|r: int| 0 <= r < 17 implies now[r] =~= goal[r] by {
                    assert forall|c: int| 0 <= c < 17 implies now[r][c] == goal[r][c] by {
                        let e = entry_over(model, anchor, (c, r));
                        assert(now[r][c] == partly_stamped(g, model, anchor, piece_name, ended)[r][c]);
                        if under.contains((c, r)) {
                            assert(model.cells[e.1].len() == model.cells[0].len());
                        }
                    }
                }
                assert(now =~= goal);
            }
            j += 1;
        }
        proof {
            let now = grid_of(state@);
            let goal = stamped(g, model, anchor, piece_name);
            assert forall|b: Cell| #[trigger] under.contains(b) implies in_box(b, 17, 17) && at(
                g,
                b,
            ) == FREE by {
                assert(comes_before(entry_over(model, anchor, b), (0, j as int)));
            }
            assert forall|r: int| 0 <= r < 17 implies now[r] =~= goal[r] by {
                assert forall|c: int| 0 <= c < 17 implies now[r][c] == goal[r][c] by {
                    assert(now[r][c] == partly_stamped(
                        g,
                        model,
                        anchor,
                        piece_name,
                        (0, j as int),
                    )[r][c]);
                }
            }
            assert(now =~= goal);
        }
        false
    }

    /// Does what `detect_overlap` does, with the same result and, where the
    /// sprite fits, the same grid, but visits the listed set entries of the
    /// sprite only, in the order of the list. When the result is `true`,
    /// `state` goes out with the marks of the listed entries before the
    /// first one that is a misfit.
    pub fn detect_overlap_fast(
        &self,
        state: &mut Vec<Vec<char>>,
        piece_name: char,
        sprite: &Sprite,
    ) -> (overlap: bool)
        requires
            is_board(self@.grid),
            self.anchor.0 + 17 <= usize::MAX,
            self.anchor.1 + 17 <= usize::MAX,
            grid_of(old(state)@) == self@.grid,
        ensures
            overlap == !fits(self@.grid, sprite@, cell_of(self.anchor)),
            !overlap ==> grid_of(final(state)@) == stamped(
                self@.grid,
                sprite@,
                cell_of(self.anchor),
                piece_name,
            ),
            overlap ==> exists|k: int|
                is_first_listed_misfit(self@.grid, sprite@, cell_of(self.anchor), k) && grid_of(
                    final(state)@,
                ) == #[trigger] list_stamped(
                    self@.grid,
                    sprite@,
                    cell_of(self.anchor),
                    piece_name,
                    k,
                ),
    {
        let coordinates = sprite.value_coordinates();
        let top_left: usize = sprite.top_left();
        let ghost g = self@.grid;
        let ghost model = sprite@;
        let ghost anchor = cell_of(self.anchor);
        let ghost under = footprint(model, anchor);
        let ghost list = model.coordinates;
        let mut k: usize = 0;
        assert forall|r: int| 0 <= r < 17 implies (#[trigger] state@[r])@.len() == 17 by {
            assert(grid_of(state@)[r] == state@[r]@);
        }
        assert(grid_of(state@) =~= list_stamped(g, model, anchor, piece_name, 0)) by {
            assert forall|r: int| 0 <= r < 17 implies grid_of(state@)[r] =~= list_stamped(
                g,
                model,
                anchor,
                piece_name,
                0,
            )[r] by {}
        }
        while k < coordinates.len()
            invariant
                k <= coordinates.len(),
                g == self@.grid,
                is_board(g),
                model == sprite@,
                model.wf(),
                list == model.coordinates,
                cell_list(coordinates@) == list,
                top_left == model.top_left,
                anchor == cell_of(self.anchor),
                self.anchor.0 + 17 <= usize::MAX,
                self.anchor.1 + 17 <= usize::MAX,
                under == footprint(model, anchor),
                state@.len() == 17,
                forall|r: int| 0 <= r < 17 ==> (#[trigger] state@[r])@.len() == 17,
                forall|n: int|
                    0 <= n < k ==> in_box(#[trigger] spot(model, anchor, list[n]), 17, 17) && at(
                        g,
                        spot(model, anchor, list[n]),
                    ) == FREE,
                grid_of(state@) == list_stamped(g, model, anchor, piece_name, k as int),
            decreases coordinates.len() - k,
        {
            let i: usize = coordinates[k].0;
            let j: usize = coordinates[k].1;
            let ghost here: Cell = (i as int, j as int);
            assert(list[k as int] == here);
            assert(list.contains(here));
            assert(filled(model.cells).contains(here));
            assert(model.cells[j as int].len() == model.cells[0].len());
            let new_x: usize = self.anchor.0 + i;
            let ghost b = spot(model, anchor, here);
            assert(entry_over(model, anchor, b) == here);
            assert(under.contains(b));
            proof {
                assert forall|n: int| 0 <= n < k implies !misfit(
                    g,
                    model,
                    anchor,
                    #[trigger] list[n],
                ) by {
                    assert(in_box(spot(model, anchor, list[n]), 17, 17));
                }
            }
            if new_x < top_left {
                assert(!in_box(b, 17, 17));
                assert(is_first_listed_misfit(g, model, anchor, k as int));
                return true;
            }
            let x: usize = new_x - top_left;
            let y: usize = self.anchor.1 + j;
            assert(b == (x as int, y as int));
            if x >= SIZE || y >= SIZE {
                assert(!in_box(b, 17, 17));
                assert(is_first_listed_misfit(g, model, anchor, k as int));
                return true;
            }
            assert(g[y as int].len() == 17);
            if self.state[y][x] != FREE {
                assert(at(g, b) != FREE);
                assert(is_first_listed_misfit(g, model, anchor, k as int));
                return true;
            }
            let ghost before = grid_of(state@);
            state[y][x] = piece_name;
            proof {
                let after = grid_of(state@);
                let goal = list_stamped(g, model, anchor, piece_name, k as int + 1);
                assert forall|r: int| 0 <= r < 17 implies after[r] =~= goal[r] by {
                    assert forall|c: int| 0 <= c < 17 implies after[r][c] == goal[r][c] by {
                        let e = entry_over(model, anchor, (c, r));
                        assert(before[r][c] == list_stamped(g, model, anchor, piece_name, k as int)[r][c]);
                        if listed(list, k as int, e) {
                            let n = choose|n: int| 0 <= n < k && #[trigger] list[n] == e;
                            assert(list[n] == e);
                        }
                        if listed(list, k as int + 1, e) && !listed(list, k as int, e) {
                            let n = choose|n: int| 0 <= n < k + 1 && #[trigger] list[n] == e;
                            assert(n == k);
                        }
                        if (c, r) == b {
                            assert(list[k as int] == e);
                        }
                    }
                }
                assert(after =~= goal);
            }
            k += 1;
        }
        proof {
            let now = grid_of(state@);
            let goal = stamped(g, model, anchor, piece_name);
            assert forall|b: Cell| #[trigger] under.contains(b) implies in_box(b, 17, 17) && at(
                g,
                b,
            ) == FREE by {
                let e = entry_over(model, anchor, b);
                assert(list.contains(e));
                let n = choose|n: int| 0 <= n < list.len() && list[n] == e;
                assert(spot(model, anchor, list[n]) == b);
            }
            assert forall|r: int| 0 <= r < 17 implies now[r] =~= goal[r] by {
                assert forall|c: int| 0 <= c < 17 implies now[r][c] == goal[r][c] by {
                    let e = entry_over(model, anchor, (c, r));
                    assert(now[r][c] == list_stamped(g, model, anchor, piece_name, k as int)[r][c]);
                    if listed(list, k as int, e) {
                        let n = choose|n: int| 0 <= n < k && #[trigger] list[n] == e;
                        assert(list.contains(e));
                    }
                    if under.contains((c, r)) {
                        assert(list.contains(e));
                        let n = choose|n: int| 0 <= n < list.len() && list[n] == e;
                        assert(listed(list, k as int, e));
                    }
                }
            }
            assert(now =~= goal);
        }
        false
    }

    /// Lays the orientation `variant_index` of `piece` down at the anchor.
    ///
    /// Fails, giving `Err`, exactly when the orientation leaves the board or
    /// covers a cell that is not free. Otherwise the result is the state
    /// with the piece on the board and no longer left to place, whose anchor
    /// is the first free cell of its grid as long as pieces are left.
    ///
    /// The state itself is only read: the piece is marked on a copy of the
    /// grid, and the copy is dropped when the piece does not fit.
    pub fn place_piece(&self, piece: &Piece, variant_index: usize) -> (res: Result<BoardState, ()>)
        requires
            self@.wf(),
            piece.wf(),
            self@.remaining.contains(piece.name),
            variant_index < piece.variants@.len(),
        ensures
            match res {
                Ok(next) => Some(next@) == place_model(self@, piece@, variant_index as int)
                    && next@.wf() && next@.anchored() && (self@.balanced() ==> next@.balanced())
                    && (self@.faithful() ==> next@.faithful()),
                Err(_) => place_model(self@, piece@, variant_index as int) is None,
            },
    {
        let sprite: &Sprite = &piece.variants[variant_index];
        assert(sprite@ == piece@.variants[variant_index as int]);
        proof {
            lemma_piece_variants(piece.name);
        }

        let mut state_new = self.state.clone();
        assert(grid_of(state_new@) =~= self@.grid) by {
            assert forall|r: int| 0 <= r < 17 implies grid_of(state_new@)[r] =~= self@.grid[r] by {
                assert(self@.grid[r] == self.state@[r]@);
                assert(self.state@[r]@.len() == 17);
            }
        }

        if self.detect_overlap(&mut state_new, piece.name, sprite) {
            return Err(());
        }
        let ghost goal = place_model(self@, piece@, variant_index as int)->0;
        proof {
            lemma_place_wf(self@, piece@, variant_index as int);
        }

        let mut pieces_new = self.pieces.clone();
        assert(pieces_new@ =~= self.pieces@);
        pieces_new.push(BoardPiece { name: piece.name, variant: variant_index, anchor: self.anchor });

        let pieces_to_place_new = remove_name(&self.pieces_to_place, piece.name);

        if pieces_to_place_new.len() == 0 {
            let next = BoardState {
                pieces: pieces_new,
                state: state_new,
                // Anchor is not important, as the puzzle is already solved
                anchor: self.anchor,
                pieces_to_place: pieces_to_place_new,
            };
            assert(next@ == goal);
            return Ok(next);
        }
        // Find the next anchor.

        proof {
            lemma_room_left(goal);
        }
        let anchor_new = first_free_cell(&state_new);
        proof {
            lemma_first_free_unique(goal.grid, anchor_new);
        }
        let next = BoardState {
            pieces: pieces_new,
            state: state_new,
            anchor: anchor_new,
            pieces_to_place: pieces_to_place_new,
        };
        assert(next@ == goal);
        Ok(next)
    }
}

} // verus!
