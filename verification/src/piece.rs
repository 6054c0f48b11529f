//! Pieces and their orientations, cut out of the printed board.

use crate::board::at;
use crate::cells::{
    comes_before, filled, is_rect, lemma_boxed_finite, lemma_shifted_len, shift, shifted, Cell,
};
use crate::geometry::{
    cell_list, create_new_variant, eq_sprites, has_filled, is_top_left, landing, lemma_scanned_all,
    lemma_transformed_filled, lemma_transformed_rect, matrix, scanned_cells, transformed,
    Coordinate, Rotation, ROTATIONS,
};
use crate::template::{
    is_piece_name, lemma_names, lemma_names_occur, lemma_target_piece_region, lemma_template_size,
    name_position, names, occurrences, template, template_cell, SIZE, TARGET_PIECE,
};
use vstd::prelude::*;

verus! {

/// Display colour of a piece.
#[derive(Debug, Clone, Copy, PartialEq, Eq, Structural)]
pub enum Color {
    Red,
    Green,
    Yellow,
    Blue,
    Magenta,
    Cyan,
    White,
    BrightRed,
    BrightGreen,
    BrightYellow,
    BrightBlue,
    BrightMagenta,
    BrightCyan,
    BrightWhite,
}

/// The colours of the pieces, in the order of the piece symbols.
pub const PIECE_COLORS: [Color; 14] = [
    Color::Red,
    Color::Green,
    Color::Yellow,
    Color::Blue,
    Color::Magenta,
    Color::Cyan,
    Color::White,
    Color::BrightRed,
    Color::BrightGreen,
    Color::BrightYellow,
    Color::BrightBlue,
    Color::BrightMagenta,
    Color::BrightCyan,
    Color::BrightWhite,
];

/// The colour of the piece whose symbol stands at position `k` among the
/// piece symbols.
pub open spec fn color_at(k: int) -> Color {
    PIECE_COLORS[k]
}

/// The colour of the piece whose symbol stands at position `k` among the
/// piece symbols.
pub fn piece_color(k: usize) -> (color: Color)
    requires
        k < 14,
    ensures
        color == color_at(k as int),
{
    PIECE_COLORS[k]
}

/// What a `Sprite` stands for: an occupancy matrix with its bookkeeping.
pub struct SpriteModel {
    /// The occupancy matrix, indexed by row and then column.
    pub cells: Seq<Seq<bool>>,
    /// The cells of the set entries of `cells`.
    pub coordinates: Seq<Cell>,
    /// Column of the entry of the top row that is laid on the anchor.
    pub top_left: int,
    /// The rotation that produced the matrix.
    pub rotation: Rotation,
    /// Whether the matrix was mirrored after the rotation.
    pub flipped: bool,
}

/// One orientation of a piece.
#[derive(Debug)]
pub struct Sprite {
    // true if the cell is non-empty
    value: Vec<Vec<bool>>,
    // The cells that are non-empty, so that placing need not visit the others.
    value_coordinates: Vec<Coordinate>,
    // The index of the first non-empty cell in the first row
    top_left: usize,
    rotation: Rotation,
    // Flip is applied after rotation
    flipped: bool,
}

impl View for Sprite {
    type V = SpriteModel;

    closed spec fn view(&self) -> SpriteModel {
        SpriteModel {
            cells: matrix(self.value@),
            coordinates: cell_list(self.value_coordinates@),
            top_left: self.top_left as int,
            rotation: self.rotation,
            flipped: self.flipped,
        }
    }
}

impl Sprite {
    /// The matrix is a rectangle that fits on the board, and the list of
    /// coordinates holds its set entries, each once.
    #[verifier::type_invariant]
    spec fn sound(&self) -> bool {
        self@.wf()
    }

    /// The occupancy matrix, row by row.
    pub fn value(&self) -> (value: &Vec<Vec<bool>>)
        ensures
            matrix(value@) == self@.cells,
            self@.wf(),
    {
        proof {
            use_type_invariant(self);
        }
        &self.value
    }

    /// The cells of the set entries of the occupancy matrix.
    pub fn value_coordinates(&self) -> (coordinates: &Vec<Coordinate>)
        ensures
            cell_list(coordinates@) == self@.coordinates,
            self@.wf(),
    {
        proof {
            use_type_invariant(self);
        }
        &self.value_coordinates
    }

    /// Column of the entry of the top row that is laid on the anchor.
    pub fn top_left(&self) -> (top_left: usize)
        ensures
            top_left == self@.top_left,
    {
        self.top_left
    }

    /// The rotation that produced this orientation.
    pub fn rotation(&self) -> (rotation: Rotation)
        ensures
            rotation == self@.rotation,
    {
        self.rotation
    }

    /// Whether this orientation was mirrored after the rotation.
    pub fn flipped(&self) -> (flipped: bool)
        ensures
            flipped == self@.flipped,
    {
        self.flipped
    }
}

/// What a `Piece` stands for.
pub struct PieceModel {
    /// The symbol of the piece.
    pub name: char,
    /// The colour the piece is shown in.
    pub color: Color,
    /// The orientations of the piece.
    pub variants: Seq<SpriteModel>,
}

/// A named piece with its distinct orientations.
#[derive(Debug)]
pub struct Piece {
    /// The symbol of the piece.
    pub name: char,
    /// The colour the piece is shown in.
    pub color: Color,
    /// Variants are the pieces with different orientations.  Note the variants are unique in shape.
    pub variants: Vec<Sprite>,
}

/// The models of a vector of sprites.
pub open spec fn sprite_models(sprites: Seq<Sprite>) -> Seq<SpriteModel> {
    Seq::new(sprites.len(), |k: int| sprites[k]@)
}

impl View for Piece {
    type V = PieceModel;

    open spec fn view(&self) -> PieceModel {
        PieceModel {
            name: self.name,
            color: self.color,
            variants: sprite_models(self.variants@),
        }
    }
}

/// A rectangle of board cells.
pub struct Bounds {
    /// The first column.
    pub left: int,
    /// The column after the last.
    pub right: int,
    /// The first row.
    pub top: int,
    /// The row after the last.
    pub bottom: int,
}

/// Whether `b` is the tight bounding box of the cells that carry `name`.
pub open spec fn is_bounds(name: char, b: Bounds) -> bool {
    &&& forall|c: Cell| #[trigger]
        occurrences(name).contains(c) ==> b.left <= c.0 < b.right && b.top <= c.1 < b.bottom
    &&& exists|c: Cell| #[trigger] occurrences(name).contains(c) && c.0 == b.left
    &&& exists|c: Cell| #[trigger] occurrences(name).contains(c) && c.0 == b.right - 1
    &&& exists|c: Cell| #[trigger] occurrences(name).contains(c) && c.1 == b.top
    &&& exists|c: Cell| #[trigger] occurrences(name).contains(c) && c.1 == b.bottom - 1
}

/// The tight bounding box of the cells that carry `name`.
pub open spec fn bounds(name: char) -> Bounds {
    choose|b: Bounds| is_bounds(name, b)
}

/// The part of the board inside `b`, as the matrix of the cells that carry
/// `name`.
pub open spec fn cut(name: char, b: Bounds) -> Seq<Seq<bool>> {
    Seq::new(
        (b.bottom - b.top) as nat,
        |j: int| Seq::new((b.right - b.left) as nat, |i: int| template()[b.top + j][b.left + i] == name),
    )
}

/// The shape of the piece `name` as printed on the board.
pub open spec fn base_shape(name: char) -> Seq<Seq<bool>> {
    cut(name, bounds(name))
}

/// The rotation of the `k`-th of the eight orientations.
pub open spec fn rotation_of(k: int) -> Rotation {
    if k < 2 {
        Rotation::R0
    } else if k < 4 {
        Rotation::R90
    } else if k < 6 {
        Rotation::R180
    } else {
        Rotation::R270
    }
}

/// Whether the `k`-th of the eight orientations is mirrored.
pub open spec fn flipped_of(k: int) -> bool {
    k == 1 || k == 3 || k == 5 || k == 7
}

/// The shape of the piece `name` in the `k`-th of the eight orientations.
#[verifier::opaque]
pub open spec fn oriented(name: char, k: int) -> Seq<Seq<bool>> {
    transformed(base_shape(name), rotation_of(k), flipped_of(k))
}

/// Whether no earlier orientation of the piece `name` gives the same matrix
/// as the `k`-th.
pub open spec fn is_fresh(name: char, k: int) -> bool {
    forall|m: int| 0 <= m < k ==> #[trigger] oriented(name, m) != oriented(name, k)
}

/// The column of the first set entry of the top row of `shape`, or
/// `usize::MAX` where the top row has none.
pub open spec fn top_left_of(shape: Seq<Seq<bool>>) -> int {
    choose|t: int| is_top_left(shape, t)
}

/// The `k`-th of the eight orientations of the piece `name`.
pub open spec fn variant_model(name: char, k: int) -> SpriteModel {
    SpriteModel {
        cells: oriented(name, k),
        coordinates: scanned_cells(
            base_shape(name),
            rotation_of(k),
            flipped_of(k),
            base_shape(name)[0].len() as int,
        ),
        top_left: top_left_of(oriented(name, k)),
        rotation: rotation_of(k),
        flipped: flipped_of(k),
    }
}

/// The distinct orientations of the piece `name` among the first `k`, each
/// where its matrix first occurs.
pub open spec fn variants_upto(name: char, k: int) -> Seq<SpriteModel>
    decreases k,
{
    if k <= 0 {
        Seq::empty()
    } else if is_fresh(name, k - 1) {
        variants_upto(name, k - 1).push(variant_model(name, k - 1))
    } else {
        variants_upto(name, k - 1)
    }
}

/// Whether `v` is one of the first `k` orientations of the piece `name`.
pub open spec fn is_orientation(name: char, v: SpriteModel, k: int) -> bool {
    exists|j: int| 0 <= j < k && v == #[trigger] variant_model(name, j)
}

/// Whether one of the sprites `vs` has the matrix `shape`.
pub open spec fn has_shape(vs: Seq<SpriteModel>, shape: Seq<Seq<bool>>) -> bool {
    exists|m: int| 0 <= m < vs.len() && (#[trigger] vs[m]).cells == shape
}

/// The cells of the set entries of row `j` left of column `cols`, from left
/// to right.
pub open spec fn row_cells(shape: Seq<Seq<bool>>, j: int, cols: int) -> Seq<Cell>
    decreases cols,
{
    if cols <= 0 {
        Seq::empty()
    } else if shape[j][cols - 1] {
        row_cells(shape, j, cols - 1).push((cols - 1, j))
    } else {
        row_cells(shape, j, cols - 1)
    }
}

/// The cells of the set entries above row `rows`, row by row from the top,
/// each row from left to right.
pub open spec fn swept_cells(shape: Seq<Seq<bool>>, rows: int) -> Seq<Cell>
    decreases rows,
{
    if rows <= 0 {
        Seq::empty()
    } else {
        swept_cells(shape, rows - 1) + row_cells(shape, rows - 1, shape[0].len() as int)
    }
}

/// The piece `name` exactly as printed, with no orientation applied.
pub open spec fn raw_model(name: char) -> SpriteModel {
    SpriteModel {
        cells: base_shape(name),
        coordinates: swept_cells(base_shape(name), base_shape(name).len() as int),
        top_left: 0,
        rotation: Rotation::R0,
        flipped: false,
    }
}

/// The position of `name` among the piece symbols.
pub open spec fn name_index(name: char) -> int {
    choose|k: int| 0 <= k < 14 && names()[k] == name
}

/// The piece `name`: with its printed shape alone where `no_variants` is set,
/// with all its distinct orientations otherwise.
pub open spec fn piece_model(name: char, no_variants: bool) -> PieceModel {
    PieceModel {
        name,
        color: color_at(name_index(name)),
        variants: if no_variants {
            seq![raw_model(name)]
        } else {
            variants_upto(name, 8)
        },
    }
}

/// A piece symbol has one tight bounding box only.
pub proof fn lemma_bounds_unique(name: char, a: Bounds, b: Bounds)
    requires
        is_bounds(name, a),
        is_bounds(name, b),
    ensures
        a == b,
{
}

/// Only one value is the top-left column of a matrix.
pub proof fn lemma_top_left_unique(shape: Seq<Seq<bool>>, t: int)
    requires
        is_top_left(shape, t),
    ensures
        t == top_left_of(shape),
{
    let u = top_left_of(shape);
    assert(is_top_left(shape, u));
    if shape.len() > 0 && has_filled(shape[0]) {
        if t < u {
            assert(!shape[0][t]);
        }
        if u < t {
            assert(!shape[0][u]);
        }
    }
}

/// Finds the tight bounding box of the cells of the board that carry `idx`,
/// as `(left, right, top, bottom)` with `right` and `bottom` exclusive.
fn find_bounds(idx: char) -> (b: (usize, usize, usize, usize))
    requires
        is_piece_name(idx),
    ensures
        is_bounds(
            idx,
            Bounds { left: b.0 as int, right: b.1 as int, top: b.2 as int, bottom: b.3 as int },
        ),
        b.0 < b.1 <= SIZE,
        b.2 < b.3 <= SIZE,
{
    let mut left: usize = SIZE;
    let mut right: usize = 0;
    let mut top: usize = SIZE;
    let mut bottom: usize = 0;
    let mut found: bool = false;
    let ghost mut at_left: Cell = (0, 0);
    let ghost mut at_right: Cell = (0, 0);
    let ghost mut at_top: Cell = (0, 0);
    let ghost mut at_bottom: Cell = (0, 0);
    let mut r: usize = 0;
    while r < SIZE
        invariant
            r <= SIZE,
            !found ==> forall|c: Cell| #[trigger]
                occurrences(idx).contains(c) ==> !comes_before(c, (0, r as int)),
            found ==> {
                &&& forall|c: Cell| #[trigger]
                    occurrences(idx).contains(c) && comes_before(c, (0, r as int)) ==> left <= c.0
                        < right && top <= c.1 < bottom
                &&& occurrences(idx).contains(at_left) && at_left.0 == left
                &&& occurrences(idx).contains(at_right) && at_right.0 == right - 1
                &&& occurrences(idx).contains(at_top) && at_top.1 == top
                &&& occurrences(idx).contains(at_bottom) && at_bottom.1 == bottom - 1
                &&& left < right <= SIZE
                &&& top < bottom <= r
            },
        decreases SIZE - r,
    {
        let mut col: usize = 0;
        while col < SIZE
            invariant
                r < SIZE,
                col <= SIZE,
                !found ==> forall|c: Cell| #[trigger]
                    occurrences(idx).contains(c) ==> !comes_before(c, (col as int, r as int)),
                found ==> {
                    &&& forall|c: Cell| #[trigger]
                        occurrences(idx).contains(c) && comes_before(c, (col as int, r as int))
                            ==> left <= c.0 < right && top <= c.1 < bottom
                    &&& occurrences(idx).contains(at_left) && at_left.0 == left
                    &&& occurrences(idx).contains(at_right) && at_right.0 == right - 1
                    &&& occurrences(idx).contains(at_top) && at_top.1 == top
                    &&& occurrences(idx).contains(at_bottom) && at_bottom.1 == bottom - 1
                    &&& left < right <= SIZE
                    &&& top < bottom <= r + 1
                },
            decreases SIZE - col,
        {
            if template_cell(r, col) == idx {
                let ghost here: Cell = (col as int, r as int);
                assert(occurrences(idx).contains(here));
                if !found {
                    left = col;
                    right = col + 1;
                    top = r;
                    bottom = r + 1;
                    found = true;
                    proof {
                        at_left = here;
                        at_right = here;
                        at_top = here;
                        at_bottom = here;
                    }
                } else {
                    if col < left {
                        left = col;
                        proof {
                            at_left = here;
                        }
                    }
                    if col + 1 > right {
                        right = col + 1;
                        proof {
                            at_right = here;
                        }
                    }
                    if r + 1 > bottom {
                        bottom = r + 1;
                        proof {
                            at_bottom = here;
                        }
                    }
                }
            }
            col += 1;
        }
        r += 1;
    }
    proof {
        lemma_names_occur();
        let k = choose|k: int| 0 <= k < 14 && #[trigger] names()[k] == idx;
        let c = choose|c: Cell| occurrences(names()[k]).contains(c);
        assert(occurrences(idx).contains(c));
        assert(comes_before(c, (0, SIZE as int)));
    }
    (left, right, top, bottom)
}

/// Cuts the cells that carry `idx` out of the rectangle `b` of the board.
///
/// Returns the occupancy matrix and the cells of its set entries, row by row
/// from the top, each row from left to right.
fn cut_out(idx: char, b: (usize, usize, usize, usize)) -> (out: (Vec<Vec<bool>>, Vec<Coordinate>))
    requires
        b.0 < b.1 <= SIZE,
        b.2 < b.3 <= SIZE,
    ensures
        matrix(out.0@) == cut(
            idx,
            Bounds { left: b.0 as int, right: b.1 as int, top: b.2 as int, bottom: b.3 as int },
        ),
        cell_list(out.1@) == swept_cells(matrix(out.0@), (b.3 - b.2) as int),
{
    let left: usize = b.0;
    let right: usize = b.1;
    let top: usize = b.2;
    let bottom: usize = b.3;
    let ghost bounds = Bounds {
        left: left as int,
        right: right as int,
        top: top as int,
        bottom: bottom as int,
    };
    let ghost goal = cut(idx, bounds);
    let mut value: Vec<Vec<bool>> = Vec::new();
    let mut value_coordinates: Vec<Coordinate> = Vec::new();
    let mut j: usize = 0;
    assert(cell_list(value_coordinates@) =~= swept_cells(goal, 0));
    while j < bottom - top
        invariant
            left < right <= SIZE,
            top < bottom <= SIZE,
            j <= bottom - top,
            bounds == (Bounds {
                left: left as int,
                right: right as int,
                top: top as int,
                bottom: bottom as int,
            }),
            goal == cut(idx, bounds),
            value@.len() == j,
            forall|r: int| 0 <= r < j ==> (#[trigger] value@[r])@ == goal[r],
            cell_list(value_coordinates@) == swept_cells(goal, j as int),
        decreases bottom - top - j,
    {
        let mut row: Vec<bool> = Vec::new();
        let mut i: usize = 0;
        let ghost before_row = cell_list(value_coordinates@);
        assert(cell_list(value_coordinates@) =~= before_row + row_cells(goal, j as int, 0));
        while i < right - left
            invariant
                left < right <= SIZE,
                top < bottom <= SIZE,
                j < bottom - top,
                i <= right - left,
                bounds == (Bounds {
                    left: left as int,
                    right: right as int,
                    top: top as int,
                    bottom: bottom as int,
                }),
                goal == cut(idx, bounds),
                row@.len() == i,
                forall|c: int| 0 <= c < i ==> row@[c] == goal[j as int][c],
                cell_list(value_coordinates@) == before_row + row_cells(goal, j as int, i as int),
            decreases right - left - i,
        {
            let occupied: bool = template_cell(top + j, left + i) == idx;
            assert(occupied == goal[j as int][i as int]);
            let ghost before = cell_list(value_coordinates@);
            row.push(occupied);
            if occupied {
                value_coordinates.push((i, j));
                proof {
                    let cells = row_cells(goal, j as int, i as int);
                    let here: Cell = (i as int, j as int);
                    assert(cell_list(value_coordinates@) =~= before.push(here));
                    assert(before_row + cells.push(here) =~= (before_row + cells).push(here));
                }
            } else {
                assert(cell_list(value_coordinates@) =~= before);
            }
            i += 1;
        }
        assert(row@ =~= goal[j as int]);
        value.push(row);
        assert(goal[0].len() == right - left);
        j += 1;
    }
    assert(matrix(value@) =~= goal);
    (value, value_coordinates)
}

/// The rotation with number `r` in the order in which orientations are
/// tried.
fn rotation_number(r: usize) -> (rotation: Rotation)
    requires
        r < 4,
    ensures
        rotation == rotation_of(2 * r),
        rotation == rotation_of(2 * r + 1),
{
    ROTATIONS[r]
}

impl SpriteModel {
    /// The matrix is a rectangle that fits on the board, and `coordinates`
    /// lists its set entries, each once.
    pub open spec fn wf(self) -> bool {
        &&& is_rect(self.cells)
        &&& 0 < self.cells[0].len() <= 17
        &&& self.cells.len() <= 17
        &&& forall|c: Cell| self.coordinates.contains(c) <==> filled(self.cells).contains(c)
        &&& self.coordinates.no_duplicates()
    }

    /// `top_left` is the column of the first set entry of the top row, and
    /// the top row has one.
    pub open spec fn anchored(self) -> bool {
        &&& self.cells.len() > 0
        &&& 0 <= self.top_left < self.cells[0].len()
        &&& self.cells[0][self.top_left]
        &&& is_top_left(self.cells, self.top_left)
    }
}

impl Piece {
    /// Whether this is the piece of its name as it is cut out of the board,
    /// with all its orientations.
    pub open spec fn wf(&self) -> bool {
        &&& is_piece_name(self.name)
        &&& self@ == piece_model(self.name, false)
    }
}

/// A set of cells with bounded keys has a cell whose key is least.
proof fn lemma_least_key(s: Set<Cell>, key: spec_fn(Cell) -> int, lo: int, hi: int) -> (least: int)
    requires
        exists|c: Cell| s.contains(c),
        forall|c: Cell| s.contains(c) ==> lo <= #[trigger] key(c) < hi,
    ensures
        forall|c: Cell| s.contains(c) ==> least <= #[trigger] key(c),
        exists|c: Cell| s.contains(c) && #[trigger] key(c) == least,
    decreases hi - lo,
{
    if exists|c: Cell| s.contains(c) && #[trigger] key(c) == lo {
        lo
    } else {
        let c = choose|c: Cell| s.contains(c);
        assert(lo <= key(c) < hi);
        lemma_least_key(s, key, lo + 1, hi)
    }
}

/// Every piece symbol has a tight bounding box on the board.
pub proof fn lemma_bounds(name: char)
    requires
        is_piece_name(name),
    ensures
        is_bounds(name, bounds(name)),
        0 <= bounds(name).left < bounds(name).right <= 17,
        0 <= bounds(name).top < bounds(name).bottom <= 17,
{
    let s = occurrences(name);
    lemma_names_occur();
    let k = choose|k: int| 0 <= k < 14 && #[trigger] names()[k] == name;
    let some = choose|c: Cell| occurrences(names()[k]).contains(c);
    assert(s.contains(some));
    let left = lemma_least_key(s, |c: Cell| c.0, 0, 17);
    let top = lemma_least_key(s, |c: Cell| c.1, 0, 17);
    let minus_right = lemma_least_key(s, |c: Cell| -c.0, -16, 1);
    let minus_bottom = lemma_least_key(s, |c: Cell| -c.1, -16, 1);
    let b = Bounds { left, right: 1 - minus_right, top, bottom: 1 - minus_bottom };
    let at_left = choose|c: Cell| s.contains(c) && (|c: Cell| c.0)(c) == left;
    let at_top = choose|c: Cell| s.contains(c) && (|c: Cell| c.1)(c) == top;
    let at_right = choose|c: Cell| s.contains(c) && (|c: Cell| -c.0)(c) == minus_right;
    let at_bottom = choose|c: Cell| s.contains(c) && (|c: Cell| -c.1)(c) == minus_bottom;
    assert(s.contains(at_left) && at_left.0 == b.left);
    assert(s.contains(at_right) && at_right.0 == b.right - 1);
    assert(s.contains(at_top) && at_top.1 == b.top);
    assert(s.contains(at_bottom) && at_bottom.1 == b.bottom - 1);
    assert forall|c: Cell| #[trigger] s.contains(c) implies b.left <= c.0 < b.right && b.top
        <= c.1 < b.bottom by {
        assert((|c: Cell| c.0)(c) >= left);
        assert((|c: Cell| c.1)(c) >= top);
        assert((|c: Cell| -c.0)(c) >= minus_right);
        assert((|c: Cell| -c.1)(c) >= minus_bottom);
    }
    assert(is_bounds(name, b));
    assert(is_bounds(name, bounds(name)));
    let found = bounds(name);
    let l = choose|c: Cell| #[trigger] s.contains(c) && c.0 == found.left;
    let t = choose|c: Cell| #[trigger] s.contains(c) && c.1 == found.top;
    assert(s.contains(l) && s.contains(t));
}

/// The printed shape of a piece is a rectangle on the board that the piece
/// touches on all four sides, and it has as many set entries as the board has
/// cells with the symbol of the piece.
pub proof fn lemma_base_shape(name: char)
    requires
        is_piece_name(name),
    ensures
        is_rect(base_shape(name)),
        0 < base_shape(name)[0].len() <= 17,
        0 < base_shape(name).len() <= 17,
        base_shape(name).len() == bounds(name).bottom - bounds(name).top,
        base_shape(name)[0].len() == bounds(name).right - bounds(name).left,
        forall|c: Cell|
            filled(base_shape(name)).contains(c) <==> occurrences(name).contains(
                shift(c, bounds(name).left, bounds(name).top),
            ),
        filled(base_shape(name)).finite(),
        filled(base_shape(name)).len() == occurrences(name).len(),
        exists|c: Cell| #[trigger] filled(base_shape(name)).contains(c) && c.1 == 0,
        exists|c: Cell| #[trigger]
            filled(base_shape(name)).contains(c) && c.1 == base_shape(name).len() - 1,
        exists|c: Cell| #[trigger] filled(base_shape(name)).contains(c) && c.0 == 0,
        exists|c: Cell| #[trigger]
            filled(base_shape(name)).contains(c) && c.0 == base_shape(name)[0].len() - 1,
{
    let b = bounds(name);
    let base = base_shape(name);
    let s = occurrences(name);
    lemma_bounds(name);
    lemma_template_size();
    assert(is_rect(base));
    assert forall|c: Cell| filled(base).contains(c) <==> s.contains(shift(c, b.left, b.top)) by {
        if s.contains(shift(c, b.left, b.top)) {
            assert(0 <= c.1 < base.len());
            assert(0 <= c.0 < base[c.1].len());
        }
    }
    lemma_boxed_finite(s, 17, 17);
    lemma_shifted_len(s, -b.left, -b.top);
    assert(filled(base) =~= shifted(s, -b.left, -b.top));
    let at_left = choose|c: Cell| #[trigger] s.contains(c) && c.0 == b.left;
    let at_right = choose|c: Cell| #[trigger] s.contains(c) && c.0 == b.right - 1;
    let at_top = choose|c: Cell| #[trigger] s.contains(c) && c.1 == b.top;
    let at_bottom = choose|c: Cell| #[trigger] s.contains(c) && c.1 == b.bottom - 1;
    assert(filled(base).contains(shift(at_left, -b.left, -b.top)));
    assert(filled(base).contains(shift(at_right, -b.left, -b.top)));
    assert(filled(base).contains(shift(at_top, -b.left, -b.top)));
    assert(filled(base).contains(shift(at_bottom, -b.left, -b.top)));
}

/// `row_cells` holds exactly the set entries of the row left of column
/// `cols`, each once.
proof fn lemma_row_cells(shape: Seq<Seq<bool>>, j: int, cols: int)
    requires
        is_rect(shape),
        0 <= j < shape.len(),
        0 <= cols <= shape[0].len(),
    ensures
        forall|c: Cell|
            #![trigger row_cells(shape, j, cols).contains(c)]
            #![trigger filled(shape).contains(c)]
            row_cells(shape, j, cols).contains(c) <==> filled(shape).contains(c) && c.1 == j && c.0
                < cols,
        row_cells(shape, j, cols).no_duplicates(),
    decreases cols,
{
    let cells = row_cells(shape, j, cols);
    if cols > 0 {
        let rest = row_cells(shape, j, cols - 1);
        let last: Cell = (cols - 1, j);
        lemma_row_cells(shape, j, cols - 1);
        assert(shape[j].len() == shape[0].len());
        assert forall|c: Cell|
            #![trigger cells.contains(c)]
            #![trigger filled(shape).contains(c)]
            cells.contains(c) <==> filled(shape).contains(c) && c.1 == j && c.0 < cols by {
            if cells.contains(c) {
                let k = choose|k: int| 0 <= k < cells.len() && cells[k] == c;
                if k < rest.len() {
                    assert(rest.contains(c));
                }
            }
            if filled(shape).contains(c) && c.1 == j && c.0 < cols {
                if c.0 < cols - 1 {
                    assert(rest.contains(c));
                    let k = choose|k: int| 0 <= k < rest.len() && rest[k] == c;
                    assert(cells[k] == c);
                } else {
                    assert(c == last);
                    assert(cells[cells.len() - 1] == c);
                }
            }
        }
        if shape[j][cols - 1] {
            assert(!rest.contains(last));
            assert forall|a: int, b: int| 0 <= a < cells.len() && 0 <= b < cells.len() && a != b
                implies cells[a] != cells[b] by {
                if a < rest.len() {
                    assert(rest.contains(cells[a]));
                }
                if b < rest.len() {
                    assert(rest.contains(cells[b]));
                }
            }
        }
    }
}

/// `swept_cells` holds exactly the set entries above row `rows`, each once.
pub proof fn lemma_swept_cells(shape: Seq<Seq<bool>>, rows: int)
    requires
        is_rect(shape),
        0 <= rows <= shape.len(),
    ensures
        forall|c: Cell|
            #![trigger swept_cells(shape, rows).contains(c)]
            #![trigger filled(shape).contains(c)]
            swept_cells(shape, rows).contains(c) <==> filled(shape).contains(c) && c.1 < rows,
        swept_cells(shape, rows).no_duplicates(),
    decreases rows,
{
    let cells = swept_cells(shape, rows);
    if rows > 0 {
        let before = swept_cells(shape, rows - 1);
        let row = row_cells(shape, rows - 1, shape[0].len() as int);
        lemma_swept_cells(shape, rows - 1);
        lemma_row_cells(shape, rows - 1, shape[0].len() as int);
        assert forall|c: Cell|
            #![trigger cells.contains(c)]
            #![trigger filled(shape).contains(c)]
            cells.contains(c) <==> filled(shape).contains(c) && c.1 < rows by {
            if cells.contains(c) {
                let k = choose|k: int| 0 <= k < cells.len() && cells[k] == c;
                if k < before.len() {
                    assert(before.contains(c));
                } else {
                    assert(row[k - before.len()] == c);
                    assert(row.contains(c));
                }
            }
            if filled(shape).contains(c) && c.1 < rows {
                assert(shape[c.1].len() == shape[0].len());
                if c.1 < rows - 1 {
                    assert(before.contains(c));
                    let k = choose|k: int| 0 <= k < before.len() && before[k] == c;
                    assert(cells[k] == c);
                } else {
                    assert(row.contains(c));
                    let k = choose|k: int| 0 <= k < row.len() && row[k] == c;
                    assert(cells[before.len() + k] == c);
                }
            }
        }
        assert forall|a: int, b: int| 0 <= a < cells.len() && 0 <= b < cells.len() && a != b
            implies cells[a] != cells[b] by {
            if a < before.len() {
                assert(before.contains(cells[a]));
            } else {
                assert(row[a - before.len()] == cells[a]);
                assert(row.contains(cells[a]));
            }
            if b < before.len() {
                assert(before.contains(cells[b]));
            } else {
                assert(row[b - before.len()] == cells[b]);
                assert(row.contains(cells[b]));
            }
        }
    }
}

/// The printed shape of a piece, taken as a sprite, is well formed.
pub proof fn lemma_raw_model(name: char)
    requires
        is_piece_name(name),
    ensures
        raw_model(name).wf(),
        filled(raw_model(name).cells).finite(),
        filled(raw_model(name).cells).len() == occurrences(name).len(),
{
    lemma_base_shape(name);
    lemma_swept_cells(base_shape(name), base_shape(name).len() as int);
}

/// Each of the eight orientations of a piece is a well-formed sprite whose
/// top row has a set entry, and it has as many set entries as the board has
/// cells with the symbol of the piece.
pub proof fn lemma_variant(name: char, k: int)
    requires
        is_piece_name(name),
        0 <= k < 8,
    ensures
        variant_model(name, k).wf(),
        variant_model(name, k).anchored(),
        filled(variant_model(name, k).cells).finite(),
        filled(variant_model(name, k).cells).len() == occurrences(name).len(),
{
    let base = base_shape(name);
    let rotation = rotation_of(k);
    let flipped = flipped_of(k);
    let v = variant_model(name, k);
    let w = base[0].len() as int;
    let h = base.len() as int;
    reveal(oriented);
    lemma_base_shape(name);
    lemma_transformed_rect(base, rotation, flipped);
    lemma_transformed_filled(base, rotation, flipped);
    lemma_scanned_all(base, rotation, flipped);
    let at_top = choose|c: Cell| #[trigger] filled(base).contains(c) && c.1 == 0;
    let at_bottom = choose|c: Cell| #[trigger] filled(base).contains(c) && c.1 == h - 1;
    let at_left = choose|c: Cell| #[trigger] filled(base).contains(c) && c.0 == 0;
    let at_right = choose|c: Cell| #[trigger] filled(base).contains(c) && c.0 == w - 1;
    let source = match rotation {
        Rotation::R0 => at_top,
        Rotation::R90 => at_left,
        Rotation::R180 => at_bottom,
        Rotation::R270 => at_right,
    };
    let hit = landing(rotation, flipped, source, w, h);
    assert(filled(base).contains(source));
    assert(filled(v.cells).contains(hit));
    assert(hit.1 == 0);
    assert(v.cells[0][hit.0]);
    assert(has_filled(v.cells[0]));
    let t = choose|t: int| is_top_left(v.cells, t);
    assert(is_top_left(v.cells, hit.0) || exists|t: int| is_top_left(v.cells, t)) by {
        lemma_first_filled(v.cells[0], hit.0);
        let first = choose|f: int|
            0 <= f <= hit.0 && v.cells[0][f] && forall|i: int| 0 <= i < f ==> !v.cells[0][i];
        assert(is_top_left(v.cells, first));
    }
    assert(is_top_left(v.cells, t));
}

/// A row with a set entry at `at` has a first set entry at or before `at`.
proof fn lemma_first_filled(row: Seq<bool>, at: int)
    requires
        0 <= at < row.len(),
        row[at],
    ensures
        exists|f: int| 0 <= f <= at && row[f] && forall|i: int| 0 <= i < f ==> !row[i],
    decreases at,
{
    if exists|i: int| 0 <= i < at && row[i] {
        let i = choose|i: int| 0 <= i < at && row[i];
        lemma_first_filled(row, i);
        let f = choose|f: int| 0 <= f <= i && row[f] && forall|i: int| 0 <= i < f ==> !row[i];
        assert(0 <= f <= at && row[f] && forall|i: int| 0 <= i < f ==> !row[i]);
    } else {
        assert(0 <= at <= at && row[at] && forall|i: int| 0 <= i < at ==> !row[i]);
    }
}

/// Among the first `k` orientations, the kept ones are orientations, every
/// orientation has its matrix among the kept ones, and no two kept ones
/// have the same matrix.
pub proof fn lemma_variants_upto(name: char, k: int)
    requires
        0 <= k <= 8,
    ensures
        variants_upto(name, k).len() <= k,
        k >= 1 ==> variants_upto(name, k).len() >= 1,
        forall|m: int|
            0 <= m < variants_upto(name, k).len() ==> is_orientation(
                name,
                #[trigger] variants_upto(name, k)[m],
                k,
            ),
        forall|j: int|
            0 <= j < k ==> has_shape(variants_upto(name, k), #[trigger] oriented(name, j)),
        forall|a: int, b: int|
            0 <= a < b < variants_upto(name, k).len() ==> (#[trigger] variants_upto(
                name,
                k,
            )[a]).cells != (#[trigger] variants_upto(name, k)[b]).cells,
    decreases k,
{
    if k > 0 {
        let before = variants_upto(name, k - 1);
        let now = variants_upto(name, k);
        lemma_variants_upto(name, k - 1);
        assert forall|m: int| 0 <= m < now.len() implies is_orientation(
            name,
            #[trigger] now[m],
            k,
        ) by {
            if m < before.len() {
                assert(is_orientation(name, before[m], k - 1));
                let j = choose|j: int| 0 <= j < k - 1 && before[m] == #[trigger] variant_model(name, j);
                assert(now[m] == variant_model(name, j));
            } else {
                assert(now[m] == variant_model(name, k - 1));
            }
        }
        assert forall|j: int| 0 <= j < k implies has_shape(now, #[trigger] oriented(name, j)) by {
            if j < k - 1 {
                assert(has_shape(before, oriented(name, j)));
                let m = choose|m: int|
                    0 <= m < before.len() && (#[trigger] before[m]).cells == oriented(name, j);
                assert(now[m].cells == oriented(name, j));
            } else if is_fresh(name, k - 1) {
                assert(now[now.len() - 1].cells == oriented(name, j));
            } else {
                let i = choose|i: int|
                    0 <= i < k - 1 && #[trigger] oriented(name, i) == oriented(name, k - 1);
                assert(has_shape(before, oriented(name, i)));
                let m = choose|m: int|
                    0 <= m < before.len() && (#[trigger] before[m]).cells == oriented(name, i);
                assert(now[m].cells == oriented(name, j));
            }
        }
        assert forall|a: int, b: int| 0 <= a < b < now.len() implies (#[trigger] now[a]).cells != (
        #[trigger] now[b]).cells by {
            if b >= before.len() {
                assert(is_orientation(name, before[a], k - 1));
                let j = choose|j: int| 0 <= j < k - 1 && before[a] == #[trigger] variant_model(name, j);
                assert(oriented(name, j) != oriented(name, k - 1));
            } else {
                assert(before[a].cells != before[b].cells);
            }
        }
    }
}

/// A piece has between one and eight orientations. No two of them have the
/// same matrix, each is a well-formed sprite whose top row has a set entry,
/// and each has as many set entries as the board has cells with the symbol of
/// the piece.
pub proof fn lemma_piece_variants(name: char)
    requires
        is_piece_name(name),
    ensures
        1 <= piece_model(name, false).variants.len() <= 8,
        forall|a: int, b: int|
            0 <= a < b < piece_model(name, false).variants.len() ==> (#[trigger] piece_model(
                name,
                false,
            ).variants[a]).cells != (#[trigger] piece_model(name, false).variants[b]).cells,
        forall|m: int|
            0 <= m < piece_model(name, false).variants.len() ==> {
                let v = #[trigger] piece_model(name, false).variants[m];
                &&& v.wf()
                &&& v.anchored()
                &&& filled(v.cells).finite()
                &&& filled(v.cells).len() == occurrences(name).len()
            },
{
    let vs = variants_upto(name, 8);
    lemma_variants_upto(name, 8);
    assert forall|m: int| 0 <= m < vs.len() implies {
        let v = #[trigger] vs[m];
        &&& v.wf()
        &&& v.anchored()
        &&& filled(v.cells).finite()
        &&& filled(v.cells).len() == occurrences(name).len()
    } by {
        assert(is_orientation(name, vs[m], 8));
        let j = choose|j: int| 0 <= j < 8 && vs[m] == #[trigger] variant_model(name, j);
        lemma_variant(name, j);
    }
}

/// The longer the run of orientations, the more of them are kept.
pub proof fn lemma_variants_grow(name: char, a: int, b: int)
    requires
        0 <= a <= b,
    ensures
        variants_upto(name, a).len() <= variants_upto(name, b).len(),
    decreases b - a,
{
    if a < b {
        lemma_variants_grow(name, a, b - 1);
    }
}

/// The target piece differs from its mirror image, so it has two
/// orientations at least.
pub proof fn lemma_target_piece_variants()
    ensures
        piece_model(TARGET_PIECE, false).variants.len() >= 2,
{
    let name = TARGET_PIECE;
    let b = Bounds { left: 8, right: 13, top: 12, bottom: 17 };
    lemma_target_piece_region();
    lemma_names();
    assert(names()[13] == name);
    lemma_bounds(name);
    assert(is_bounds(name, b));
    lemma_bounds_unique(name, b, bounds(name));
    let base = base_shape(name);
    assert(occurrences(name).contains((11, 12)));
    assert(!occurrences(name).contains((9, 12)));
    assert(base[0][3]);
    assert(!base[0][1]);
    reveal(oriented);
    assert(oriented(name, 1)[0][1]);
    assert(!oriented(name, 0)[0][1]);
    assert(is_fresh(name, 0));
    assert(is_fresh(name, 1));
    assert(variants_upto(name, 1).len() == 1) by {
        assert(variants_upto(name, 0).len() == 0);
    }
    assert(variants_upto(name, 2).len() == 2);
    lemma_variants_grow(name, 2, 8);
}

/// Cuts the piece with the symbol `idx` out of the board.
///
/// With `no_variants` the piece has its printed shape as its one orientation,
/// at offset 0. Otherwise it has every rotation by a quarter turn, plain and
/// mirrored, in that order, without those whose matrix an earlier one has
/// already.
pub fn extract_piece_from_board(idx: char, no_variants: bool) -> (piece: Piece)
    requires
        is_piece_name(idx),
    ensures
        piece@ == piece_model(idx, no_variants),
        1 <= piece.variants@.len() <= 8,
        forall|a: int, b: int|
            0 <= a < b < piece.variants@.len() ==> (#[trigger] piece.variants@[a])@.cells != (
            #[trigger] piece.variants@[b])@.cells,
        forall|m: int| 0 <= m < piece.variants@.len() ==> (#[trigger] piece.variants@[m])@.wf(),
{
    let b = find_bounds(idx);
    proof {
        lemma_bounds(idx);
        lemma_base_shape(idx);
        lemma_names();
        lemma_bounds_unique(
            idx,
            Bounds { left: b.0 as int, right: b.1 as int, top: b.2 as int, bottom: b.3 as int },
            bounds(idx),
        );
    }
    let cut = cut_out(idx, b);
    let value: Vec<Vec<bool>> = cut.0;
    let value_coordinates: Vec<Coordinate> = cut.1;
    let ghost base = base_shape(idx);
    assert(matrix(value@) == base);
    let position = name_position(idx);
    let k: usize = position.unwrap();
    assert(name_index(idx) == k);
    let color = piece_color(k);

    if no_variants {
        proof {
            lemma_raw_model(idx);
            assert(cell_list(value_coordinates@) == raw_model(idx).coordinates);
        }
        let sprite = Sprite {
            value,
            value_coordinates,
            top_left: 0,
            rotation: Rotation::R0,
            flipped: false,
        };
        assert(sprite@ == raw_model(idx));
        let mut variants: Vec<Sprite> = Vec::new();
        variants.push(sprite);
        proof {
            assert(sprite_models(variants@) =~= seq![raw_model(idx)]);
            lemma_raw_model(idx);
        }
        return Piece { name: idx, color, variants };
    }
    // Create the variants

    let mut variants: Vec<Sprite> = Vec::new();
    let mut r: usize = 0;
    assert(sprite_models(variants@) =~= variants_upto(idx, 0));
    while r < 4
        invariant
            r <= 4,
            is_piece_name(idx),
            base == base_shape(idx),
            matrix(value@) == base,
            is_rect(base),
            sprite_models(variants@) == variants_upto(idx, 2 * r),
        decreases 4 - r,
    {
        let rotation = rotation_number(r);
        let mut f: usize = 0;
        while f < 2
            invariant
                r < 4,
                f <= 2,
                is_piece_name(idx),
                base == base_shape(idx),
                matrix(value@) == base,
                is_rect(base),
                rotation == rotation_of(2 * r),
                rotation == rotation_of(2 * r + 1),
                sprite_models(variants@) == variants_upto(idx, 2 * r + f),
            decreases 2 - f,
        {
            let flipped: bool = f == 1;
            let ghost k = 2 * r + f;
            assert(rotation == rotation_of(k) && flipped == flipped_of(k));
            let made = create_new_variant(value.as_slice(), &rotation, flipped);
            let value_new: Vec<Vec<bool>> = made.0;
            let value_coordinates: Vec<Coordinate> = made.1;
            let top_left: usize = made.2;
            assert(matrix(value_new@) == oriented(idx, k)) by {
                reveal(oriented);
            }

            let mut seen: bool = false;
            let mut m: usize = 0;
            while m < variants.len() && !seen
                invariant
                    m <= variants.len(),
                    matrix(value_new@) == oriented(idx, k),
                    seen ==> exists|n: int|
                        0 <= n < variants@.len() && (#[trigger] variants@[n])@.cells == oriented(
                            idx,
                            k,
                        ),
                    !seen ==> forall|n: int|
                        0 <= n < m ==> (#[trigger] variants@[n])@.cells != oriented(idx, k),
                decreases variants.len() - m + (if seen { 0int } else { 1int }),
            {
                if eq_sprites(value_new.as_slice(), variants[m].value().as_slice()) {
                    seen = true;
                } else {
                    m += 1;
                }
            }
            proof {
                let kept = variants_upto(idx, k);
                lemma_variants_upto(idx, k);
                assert(forall|n: int|
                    0 <= n < kept.len() ==> (#[trigger] kept[n]) == variants@[n]@);
                if seen {
                    let n = choose|n: int|
                        0 <= n < variants@.len() && (#[trigger] variants@[n])@.cells == oriented(
                            idx,
                            k,
                        );
                    assert(is_orientation(idx, kept[n], k));
                    let j = choose|j: int| 0 <= j < k && kept[n] == #[trigger] variant_model(idx, j);
                    assert(oriented(idx, j) == oriented(idx, k));
                    assert(!is_fresh(idx, k));
                } else {
                    assert forall|j: int| 0 <= j < k implies #[trigger] oriented(idx, j)
                        != oriented(idx, k) by {
                        assert(has_shape(kept, oriented(idx, j)));
                        let n = choose|n: int|
                            0 <= n < kept.len() && (#[trigger] kept[n]).cells == oriented(idx, j);
                        assert(variants@[n]@.cells != oriented(idx, k));
                    }
                    assert(is_fresh(idx, k));
                }
            }
            if !seen {
                proof {
                    lemma_top_left_unique(matrix(value_new@), top_left as int);
                    lemma_variant(idx, k);
                }
                let ghost before = sprite_models(variants@);
                let sprite = Sprite {
                    value: value_new,
                    value_coordinates,
                    top_left,
                    rotation,
                    flipped,
                };
                assert(sprite@ == variant_model(idx, k));
                variants.push(sprite);
                assert(sprite_models(variants@) =~= before.push(variant_model(idx, k)));
            }
            f += 1;
        }
        r += 1;
    }
    proof {
        lemma_piece_variants(idx);
        assert(forall|n: int|
            0 <= n < variants@.len() ==> (#[trigger] variants@[n])@ == variants_upto(idx, 8)[n]);
    }
    Piece { name: idx, color, variants }
}

} // verus!
