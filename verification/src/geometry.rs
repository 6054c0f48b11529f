//! Quarter turns and mirror flips of boolean occupancy matrices.

use crate::board::spot;
use crate::cells::{filled, in_box, is_rect, lemma_filled_finite, Cell};
use vstd::prelude::*;
use vstd::relations::injective_on;
use vstd::set_lib::lemma_map_size;

verus! {

/// A board or matrix position, written `(column, row)`.
pub type Coordinate = (usize, usize);

/// Clockwise rotation by a multiple of a quarter turn.
#[derive(Debug, Clone, Copy, PartialEq, Eq, Structural)]
pub enum Rotation {
    R0,
    R90,
    R180,
    R270,
}

/// The four rotations, in the order in which orientations are tried.
pub const ROTATIONS: [Rotation; 4] = [Rotation::R0, Rotation::R90, Rotation::R180, Rotation::R270];

impl Rotation {
    /// Size `(width, height)` of a `w` by `h` matrix after the rotation.
    pub open spec fn turned_size(self, w: int, h: int) -> (int, int) {
        match self {
            Rotation::R0 => (w, h),
            Rotation::R90 => (h, w),
            Rotation::R180 => (w, h),
            Rotation::R270 => (h, w),
        }
    }

    /// Where cell `c` of a `w` by `h` matrix lies after the rotation.
    pub open spec fn turned(self, c: Cell, w: int, h: int) -> Cell {
        match self {
            Rotation::R0 => c,
            Rotation::R90 => (h - c.1 - 1, c.0),
            Rotation::R180 => (w - c.0 - 1, h - c.1 - 1),
            Rotation::R270 => (c.1, w - c.0 - 1),
        }
    }

    /// Whether the rotation of `(x, y)` in a `w` by `h` matrix stays clear of
    /// negative coordinates.
    pub open spec fn admits(self, x: int, y: int, w: int, h: int) -> bool {
        match self {
            Rotation::R0 => true,
            Rotation::R90 => y < h,
            Rotation::R180 => x < w && y < h,
            Rotation::R270 => x < w,
        }
    }

    /// The rotation that follows `self` after one more quarter turn.
    pub open spec fn next(self) -> Rotation {
        match self {
            Rotation::R0 => Rotation::R90,
            Rotation::R90 => Rotation::R180,
            Rotation::R180 => Rotation::R270,
            Rotation::R270 => Rotation::R0,
        }
    }

    /// Maps `(x, y, width, height)` to the rotated position and the rotated
    /// size.
    pub fn transform(&self, input: (usize, usize, usize, usize)) -> (out: (
        usize,
        usize,
        usize,
        usize,
    ))
        requires
            self.admits(input.0 as int, input.1 as int, input.2 as int, input.3 as int),
        ensures
            (out.0 as int, out.1 as int) == self.turned(
                (input.0 as int, input.1 as int),
                input.2 as int,
                input.3 as int,
            ),
            (out.2 as int, out.3 as int) == self.turned_size(input.2 as int, input.3 as int),
    {
        let x: usize = input.0;
        let y: usize = input.1;
        let w: usize = input.2;
        let h: usize = input.3;
        match self {
            Rotation::R0 => (x, y, w, h),
            Rotation::R90 => (h - y - 1, x, h, w),
            Rotation::R180 => (w - x - 1, h - y - 1, w, h),
            Rotation::R270 => (y, w - x - 1, h, w),
        }
    }

    /// Maps `(width, height)` to the size after the rotation.
    pub fn transform_size(&self, input: (usize, usize)) -> (out: (usize, usize))
        ensures
            (out.0 as int, out.1 as int) == self.turned_size(input.0 as int, input.1 as int),
    {
        let w: usize = input.0;
        let h: usize = input.1;
        match self {
            Rotation::R0 => (w, h),
            Rotation::R90 => (h, w),
            Rotation::R180 => (w, h),
            Rotation::R270 => (h, w),
        }
    }
}

/// Mirrors `(x, y)` left to right in a matrix `w` columns wide.
pub fn flip(input: (usize, usize, usize)) -> (out: (usize, usize))
    requires
        input.0 < input.2,
    ensures
        out.0 == input.2 - input.0 - 1,
        out.1 == input.1,
{
    let x: usize = input.0;
    let y: usize = input.1;
    let w: usize = input.2;
    (w - x - 1, y)
}

/// Where cell `c` of a `w` by `h` matrix lands when the matrix is rotated and
/// then, if `flipped`, mirrored left to right.
pub open spec fn landing(rotation: Rotation, flipped: bool, c: Cell, w: int, h: int) -> Cell {
    let t = rotation.turned(c, w, h);
    if flipped {
        (rotation.turned_size(w, h).0 - t.0 - 1, t.1)
    } else {
        t
    }
}

/// The cell of the `w` by `h` source matrix that lands on cell `c` of the
/// transformed matrix.
pub open spec fn origin(rotation: Rotation, flipped: bool, c: Cell, w: int, h: int) -> Cell {
    let u = if flipped {
        (rotation.turned_size(w, h).0 - c.0 - 1, c.1)
    } else {
        c
    };
    match rotation {
        Rotation::R0 => u,
        Rotation::R90 => (u.1, h - u.0 - 1),
        Rotation::R180 => (w - u.0 - 1, h - u.1 - 1),
        Rotation::R270 => (w - u.1 - 1, u.0),
    }
}

/// The matrix `shape` rotated and then, if `flipped`, mirrored left to right.
pub open spec fn transformed(shape: Seq<Seq<bool>>, rotation: Rotation, flipped: bool) -> Seq<
    Seq<bool>,
> {
    let w = shape[0].len() as int;
    let h = shape.len() as int;
    let size = rotation.turned_size(w, h);
    Seq::new(
        size.1 as nat,
        |j: int|
            Seq::new(
                size.0 as nat,
                |i: int|
                    {
                        let s = origin(rotation, flipped, (i, j), w, h);
                        shape[s.1][s.0]
                    },
            ),
    )
}

/// Whether some entry of `row` is set.
pub open spec fn has_filled(row: Seq<bool>) -> bool {
    exists|i: int| 0 <= i < row.len() && #[trigger] row[i]
}

/// Whether `t` is the column of the first set entry of the top row of
/// `shape`; a matrix without such an entry has `usize::MAX` in its place.
pub open spec fn is_top_left(shape: Seq<Seq<bool>>, t: int) -> bool {
    if shape.len() > 0 && has_filled(shape[0]) {
        &&& 0 <= t < shape[0].len()
        &&& shape[0][t]
        &&& forall|i: int| 0 <= i < t ==> !#[trigger] shape[0][i]
    } else {
        t == usize::MAX
    }
}

/// The landing cells of the set entries of column `i`, rows `0..rows`, from
/// the top down.
pub open spec fn column_cells(
    shape: Seq<Seq<bool>>,
    rotation: Rotation,
    flipped: bool,
    i: int,
    rows: int,
) -> Seq<Cell>
    decreases rows,
{
    if rows <= 0 {
        Seq::empty()
    } else {
        let rest = column_cells(shape, rotation, flipped, i, rows - 1);
        if shape[rows - 1][i] {
            rest.push(
                landing(rotation, flipped, (i, rows - 1), shape[0].len() as int, shape.len() as int),
            )
        } else {
            rest
        }
    }
}

/// The landing cells of the set entries of columns `0..cols`, column by
/// column from the left, each column from the top down.
pub open spec fn scanned_cells(
    shape: Seq<Seq<bool>>,
    rotation: Rotation,
    flipped: bool,
    cols: int,
) -> Seq<Cell>
    decreases cols,
{
    if cols <= 0 {
        Seq::empty()
    } else {
        scanned_cells(shape, rotation, flipped, cols - 1) + column_cells(
            shape,
            rotation,
            flipped,
            cols - 1,
            shape.len() as int,
        )
    }
}

/// The matrix held by a vector of rows.
pub open spec fn matrix(rows: Seq<Vec<bool>>) -> Seq<Seq<bool>> {
    Seq::new(rows.len(), |j: int| rows[j]@)
}

/// The cells held by a vector of coordinates.
pub open spec fn cell_list(coordinates: Seq<Coordinate>) -> Seq<Cell> {
    Seq::new(coordinates.len(), |k: int| (coordinates[k].0 as int, coordinates[k].1 as int))
}

/// `landing` and `origin` undo each other on the source rectangle.
pub proof fn lemma_landing_origin(rotation: Rotation, flipped: bool, c: Cell, w: int, h: int)
    requires
        in_box(c, w, h),
    ensures
        in_box(
            landing(rotation, flipped, c, w, h),
            rotation.turned_size(w, h).0,
            rotation.turned_size(w, h).1,
        ),
        origin(rotation, flipped, landing(rotation, flipped, c, w, h), w, h) == c,
{
}

/// `origin` and `landing` undo each other on the transformed rectangle.
pub proof fn lemma_origin_landing(rotation: Rotation, flipped: bool, c: Cell, w: int, h: int)
    requires
        in_box(c, rotation.turned_size(w, h).0, rotation.turned_size(w, h).1),
    ensures
        in_box(origin(rotation, flipped, c, w, h), w, h),
        landing(rotation, flipped, origin(rotation, flipped, c, w, h), w, h) == c,
{
}

/// A transformed matrix is rectangular with the rotated size, as long as it
/// keeps at least one row.
pub proof fn lemma_transformed_rect(shape: Seq<Seq<bool>>, rotation: Rotation, flipped: bool)
    requires
        is_rect(shape),
        shape[0].len() > 0,
    ensures
        is_rect(transformed(shape, rotation, flipped)),
        transformed(shape, rotation, flipped).len() == rotation.turned_size(
            shape[0].len() as int,
            shape.len() as int,
        ).1,
        transformed(shape, rotation, flipped)[0].len() == rotation.turned_size(
            shape[0].len() as int,
            shape.len() as int,
        ).0,
{
}

/// The filled cells of a transformed matrix are the landing cells of the
/// filled cells of the source, and there are as many of them.
pub proof fn lemma_transformed_filled(shape: Seq<Seq<bool>>, rotation: Rotation, flipped: bool)
    requires
        is_rect(shape),
        shape[0].len() > 0,
    ensures
        forall|c: Cell|
            filled(shape).contains(c) ==> filled(transformed(shape, rotation, flipped)).contains(
                #[trigger] landing(rotation, flipped, c, shape[0].len() as int, shape.len() as int),
            ),
        forall|c: Cell|
            filled(transformed(shape, rotation, flipped)).contains(c) ==> filled(shape).contains(
                #[trigger] origin(rotation, flipped, c, shape[0].len() as int, shape.len() as int),
            ),
        filled(transformed(shape, rotation, flipped)).finite(),
        filled(transformed(shape, rotation, flipped)).len() == filled(shape).len(),
{
    let w = shape[0].len() as int;
    let h = shape.len() as int;
    let out = transformed(shape, rotation, flipped);
    let f = |c: Cell| landing(rotation, flipped, c, w, h);
    lemma_filled_finite(shape);
    assert forall|c: Cell| filled(shape).contains(c) implies filled(out).contains(
        #[trigger] landing(rotation, flipped, c, w, h),
    ) by {
        lemma_landing_origin(rotation, flipped, c, w, h);
    }
    assert forall|c: Cell| filled(out).contains(c) implies filled(shape).contains(
        #[trigger] origin(rotation, flipped, c, w, h),
    ) by {
        lemma_origin_landing(rotation, flipped, c, w, h);
    }
    assert forall|c: Cell| filled(out).contains(c) <==> filled(shape).map(f).contains(c) by {
        if filled(out).contains(c) {
            let s = origin(rotation, flipped, c, w, h);
            lemma_origin_landing(rotation, flipped, c, w, h);
            assert(filled(shape).contains(s) && f(s) == c);
        }
        if filled(shape).map(f).contains(c) {
            let s = choose|s: Cell| filled(shape).contains(s) && f(s) == c;
            lemma_landing_origin(rotation, flipped, s, w, h);
        }
    }
    assert(filled(out) =~= filled(shape).map(f));
    assert(injective_on(f, filled(shape))) by {
        assert forall|a: Cell, b: Cell|
            filled(shape).contains(a) && filled(shape).contains(b) && #[trigger] f(a)
                == #[trigger] f(b) implies a == b by {
            lemma_landing_origin(rotation, flipped, a, w, h);
            lemma_landing_origin(rotation, flipped, b, w, h);
        }
    }
    lemma_map_size(filled(shape), filled(out), f);
}

/// One more quarter turn of a turned matrix gives the next rotation of the
/// matrix itself.
pub proof fn lemma_quarter_turn_step(shape: Seq<Seq<bool>>, rotation: Rotation)
    requires
        is_rect(shape),
        shape[0].len() > 0,
    ensures
        transformed(transformed(shape, rotation, false), Rotation::R90, false) == transformed(
            shape,
            rotation.next(),
            false,
        ),
{
    let w = shape[0].len() as int;
    let h = shape.len() as int;
    let mid = transformed(shape, rotation, false);
    let lhs = transformed(mid, Rotation::R90, false);
    let rhs = transformed(shape, rotation.next(), false);
    lemma_transformed_rect(shape, rotation, false);
    assert(lhs.len() == rhs.len());
    assert forall|j: int| 0 <= j < lhs.len() implies lhs[j] =~= rhs[j] by {
        assert forall|i: int| 0 <= i < lhs[j].len() implies lhs[j][i] == rhs[j][i] by {
            let s = origin(Rotation::R90, false, (i, j), mid[0].len() as int, mid.len() as int);
            assert(in_box(s, mid[0].len() as int, mid.len() as int));
        }
    }
    assert(lhs =~= rhs);
}

/// Rotating by no turn at all leaves a matrix as it is.
pub proof fn lemma_no_turn(shape: Seq<Seq<bool>>)
    requires
        is_rect(shape),
    ensures
        transformed(shape, Rotation::R0, false) == shape,
{
    let out = transformed(shape, Rotation::R0, false);
    assert forall|j: int| 0 <= j < out.len() implies out[j] =~= shape[j] by {}
    assert(out =~= shape);
}

/// Four quarter turns in a row bring every matrix back to itself, passing
/// through its rotations by 90, 180 and 270 degrees on the way.
pub proof fn lemma_four_quarter_turns(shape: Seq<Seq<bool>>)
    requires
        is_rect(shape),
        shape[0].len() > 0,
    ensures
        ({
            let once = transformed(shape, Rotation::R90, false);
            let twice = transformed(once, Rotation::R90, false);
            let thrice = transformed(twice, Rotation::R90, false);
            &&& twice == transformed(shape, Rotation::R180, false)
            &&& thrice == transformed(shape, Rotation::R270, false)
            &&& transformed(thrice, Rotation::R90, false) == shape
        }),
{
    lemma_quarter_turn_step(shape, Rotation::R90);
    lemma_quarter_turn_step(shape, Rotation::R180);
    lemma_quarter_turn_step(shape, Rotation::R270);
    lemma_no_turn(shape);
}

/// Whether source cell `s` comes before column `i`, row `j` in the order that
/// goes through a matrix column by column, each column from the top down.
pub open spec fn scanned_before(s: Cell, i: int, j: int) -> bool {
    s.0 < i || (s.0 == i && s.1 < j)
}

/// The entry of `shape` at cell `c`.
pub open spec fn entry(shape: Seq<Seq<bool>>, c: Cell) -> bool {
    shape[c.1][c.0]
}

/// `column_cells` holds exactly the landing cells of the set entries of the
/// column above row `rows`, each once.
pub proof fn lemma_column_cells(
    shape: Seq<Seq<bool>>,
    rotation: Rotation,
    flipped: bool,
    i: int,
    rows: int,
)
    requires
        is_rect(shape),
        0 <= i < shape[0].len(),
        0 <= rows <= shape.len(),
    ensures
        forall|c: Cell|
            column_cells(shape, rotation, flipped, i, rows).contains(c) <==> {
                let s = origin(rotation, flipped, c, shape[0].len() as int, shape.len() as int);
                &&& in_box(
                    c,
                    rotation.turned_size(shape[0].len() as int, shape.len() as int).0,
                    rotation.turned_size(shape[0].len() as int, shape.len() as int).1,
                )
                &&& s.0 == i
                &&& 0 <= s.1 < rows
                &&& entry(shape, s)
            },
        column_cells(shape, rotation, flipped, i, rows).no_duplicates(),
    decreases rows,
{
    let w = shape[0].len() as int;
    let h = shape.len() as int;
    let cells = column_cells(shape, rotation, flipped, i, rows);
    if rows > 0 {
        let rest = column_cells(shape, rotation, flipped, i, rows - 1);
        let last = landing(rotation, flipped, (i, rows - 1), w, h);
        lemma_column_cells(shape, rotation, flipped, i, rows - 1);
        lemma_landing_origin(rotation, flipped, (i, rows - 1), w, h);
        assert forall|c: Cell| cells.contains(c) <==> {
            let s = origin(rotation, flipped, c, w, h);
            &&& in_box(c, rotation.turned_size(w, h).0, rotation.turned_size(w, h).1)
            &&& s.0 == i
            &&& 0 <= s.1 < rows
            &&& entry(shape, s)
        } by {
            let s = origin(rotation, flipped, c, w, h);
            if cells.contains(c) {
                let k = choose|k: int| 0 <= k < cells.len() && cells[k] == c;
                if k < rest.len() {
                    assert(rest.contains(c));
                }
            }
            if in_box(c, rotation.turned_size(w, h).0, rotation.turned_size(w, h).1) && s.0 == i
                && 0 <= s.1 < rows && entry(shape, s) {
                lemma_origin_landing(rotation, flipped, c, w, h);
                if s.1 < rows - 1 {
                    assert(rest.contains(c));
                    let k = choose|k: int| 0 <= k < rest.len() && rest[k] == c;
                    assert(cells[k] == c);
                } else {
                    assert(cells[cells.len() - 1] == c);
                }
            }
        }
        if entry(shape, (i, rows - 1)) {
            assert(!rest.contains(last));
            assert forall|a: int, b: int| 0 <= a < cells.len() && 0 <= b < cells.len() && a != b
                implies cells[a] != cells[b] by {
                if a < rest.len() {
                    assert(rest.contains(cells[a]));
                }
                if b < rest.len() {
                    assert(rest.contains(cells[b]));
                }
            }
        }
    }
}

/// `scanned_cells` holds exactly the landing cells of the set entries left
/// of column `cols`, each once.
pub proof fn lemma_scanned_cells(
    shape: Seq<Seq<bool>>,
    rotation: Rotation,
    flipped: bool,
    cols: int,
)
    requires
        is_rect(shape),
        0 <= cols <= shape[0].len(),
    ensures
        forall|c: Cell|
            scanned_cells(shape, rotation, flipped, cols).contains(c) <==> {
                let s = origin(rotation, flipped, c, shape[0].len() as int, shape.len() as int);
                &&& in_box(
                    c,
                    rotation.turned_size(shape[0].len() as int, shape.len() as int).0,
                    rotation.turned_size(shape[0].len() as int, shape.len() as int).1,
                )
                &&& 0 <= s.0 < cols
                &&& entry(shape, s)
            },
        scanned_cells(shape, rotation, flipped, cols).no_duplicates(),
    decreases cols,
{
    let w = shape[0].len() as int;
    let h = shape.len() as int;
    let cells = scanned_cells(shape, rotation, flipped, cols);
    if cols > 0 {
        let before = scanned_cells(shape, rotation, flipped, cols - 1);
        let column = column_cells(shape, rotation, flipped, cols - 1, h);
        lemma_scanned_cells(shape, rotation, flipped, cols - 1);
        lemma_column_cells(shape, rotation, flipped, cols - 1, h);
        assert forall|c: Cell| cells.contains(c) <==> {
            let s = origin(rotation, flipped, c, w, h);
            &&& in_box(c, rotation.turned_size(w, h).0, rotation.turned_size(w, h).1)
            &&& 0 <= s.0 < cols
            &&& entry(shape, s)
        } by {
            let s = origin(rotation, flipped, c, w, h);
            if cells.contains(c) {
                let k = choose|k: int| 0 <= k < cells.len() && cells[k] == c;
                if k < before.len() {
                    assert(before.contains(c));
                } else {
                    assert(column[k - before.len()] == c);
                    assert(column.contains(c));
                }
            }
            if in_box(c, rotation.turned_size(w, h).0, rotation.turned_size(w, h).1) && 0 <= s.0
                < cols && entry(shape, s) {
                lemma_origin_landing(rotation, flipped, c, w, h);
                if s.0 < cols - 1 {
                    assert(before.contains(c));
                    let k = choose|k: int| 0 <= k < before.len() && before[k] == c;
                    assert(cells[k] == c);
                } else {
                    assert(column.contains(c));
                    let k = choose|k: int| 0 <= k < column.len() && column[k] == c;
                    assert(cells[before.len() + k] == c);
                }
            }
        }
        assert forall|a: int, b: int| 0 <= a < cells.len() && 0 <= b < cells.len() && a != b
            implies cells[a] != cells[b] by {
            if a < before.len() {
                assert(before.contains(cells[a]));
            } else {
                assert(column[a - before.len()] == cells[a]);
                assert(column.contains(cells[a]));
            }
            if b < before.len() {
                assert(before.contains(cells[b]));
            } else {
                assert(column[b - before.len()] == cells[b]);
                assert(column.contains(cells[b]));
            }
        }
    }
}

/// The cells that scanning the whole matrix collects are the filled cells of
/// the transformed matrix.
pub proof fn lemma_scanned_all(shape: Seq<Seq<bool>>, rotation: Rotation, flipped: bool)
    requires
        is_rect(shape),
    ensures
        forall|c: Cell|
            scanned_cells(shape, rotation, flipped, shape[0].len() as int).contains(c) <==> filled(
                transformed(shape, rotation, flipped),
            ).contains(c),
        scanned_cells(shape, rotation, flipped, shape[0].len() as int).no_duplicates(),
{
    let w = shape[0].len() as int;
    let h = shape.len() as int;
    lemma_scanned_cells(shape, rotation, flipped, w);
    assert forall|c: Cell|
        scanned_cells(shape, rotation, flipped, w).contains(c) <==> filled(
            transformed(shape, rotation, flipped),
        ).contains(c) by {
        if in_box(c, rotation.turned_size(w, h).0, rotation.turned_size(w, h).1) {
            lemma_origin_landing(rotation, flipped, c, w, h);
        }
    }
}

/// Builds the matrix `value` rotated and then, if `flipped`, mirrored.
///
/// Returns the new matrix, the cells of its set entries in the order in
/// which a column-by-column scan of `value` meets them, and the column of the
/// first set entry of the new top row.
pub fn create_new_variant(value: &[Vec<bool>], rotation: &Rotation, flipped: bool) -> (out: (
    Vec<Vec<bool>>,
    Vec<Coordinate>,
    usize,
))
    requires
        is_rect(matrix(value@)),
    ensures
        matrix(out.0@) == transformed(matrix(value@), *rotation, flipped),
        cell_list(out.1@) == scanned_cells(
            matrix(value@),
            *rotation,
            flipped,
            value@[0]@.len() as int,
        ),
        is_top_left(matrix(out.0@), out.2 as int),
{
    let w: usize = value[0].len();
    let h: usize = value.len();
    let ghost shape = matrix(value@);
    let ghost wi = w as int;
    let ghost hi = h as int;

    let mut top_left: usize = usize::MAX;
    let size = rotation.transform_size((w, h));
    let w_new: usize = size.0;
    let h_new: usize = size.1;
    let mut value_new: Vec<Vec<bool>> = vec![vec![false; w_new]; h_new];
    let mut value_coordinates: Vec<Coordinate> = Vec::new();
    assert(cell_list(value_coordinates@) =~= Seq::<Cell>::empty());
    let mut i: usize = 0;
    while i < w
        invariant
            is_rect(shape),
            shape == matrix(value@),
            wi == w == shape[0].len(),
            hi == h == shape.len(),
            i <= w,
            (w_new as int, h_new as int) == rotation.turned_size(wi, hi),
            value_new@.len() == h_new,
            forall|r: int| 0 <= r < h_new ==> (#[trigger] value_new@[r])@.len() == w_new,
            forall|s: Cell|
                in_box(s, wi, hi) && scanned_before(s, i as int, 0) ==> entry(
                    matrix(value_new@),
                    #[trigger] landing(*rotation, flipped, s, wi, hi),
                ) == entry(shape, s),
            forall|t: Cell|
                in_box(t, w_new as int, h_new as int) && !scanned_before(
                    #[trigger] origin(*rotation, flipped, t, wi, hi),
                    i as int,
                    0,
                ) ==> !entry(matrix(value_new@), t),
            is_top_left(matrix(value_new@), top_left as int),
            cell_list(value_coordinates@) == scanned_cells(shape, *rotation, flipped, i as int),
        decreases w - i,
    {
        let mut j: usize = 0;
        assert(cell_list(value_coordinates@) =~= scanned_cells(shape, *rotation, flipped, i as int)
            + column_cells(shape, *rotation, flipped, i as int, 0));
        while j < h
            invariant
                is_rect(shape),
                shape == matrix(value@),
                wi == w == shape[0].len(),
                hi == h == shape.len(),
                i < w,
                j <= h,
                (w_new as int, h_new as int) == rotation.turned_size(wi, hi),
                value_new@.len() == h_new,
                forall|r: int| 0 <= r < h_new ==> (#[trigger] value_new@[r])@.len() == w_new,
                forall|s: Cell|
                    in_box(s, wi, hi) && scanned_before(s, i as int, j as int) ==> entry(
                        matrix(value_new@),
                        #[trigger] landing(*rotation, flipped, s, wi, hi),
                    ) == entry(shape, s),
                forall|t: Cell|
                    in_box(t, w_new as int, h_new as int) && !scanned_before(
                        #[trigger] origin(*rotation, flipped, t, wi, hi),
                        i as int,
                        j as int,
                    ) ==> !entry(matrix(value_new@), t),
                is_top_left(matrix(value_new@), top_left as int),
                cell_list(value_coordinates@) == scanned_cells(shape, *rotation, flipped, i as int)
                    + column_cells(shape, *rotation, flipped, i as int, j as int),
            decreases h - j,
        {
            let ghost source: Cell = (i as int, j as int);
            proof {
                lemma_landing_origin(*rotation, flipped, source, wi, hi);
            }
            let turned = rotation.transform((i, j, w, h));
            let target: Coordinate = if flipped {
                flip((turned.0, turned.1, w_new))
            } else {
                (turned.0, turned.1)
            };
            let i_new: usize = target.0;
            let j_new: usize = target.1;
            let ghost spot: Cell = (i_new as int, j_new as int);
            assert(spot == landing(*rotation, flipped, source, wi, hi));
            assert(shape[j as int].len() == shape[0].len());
            let v: bool = value[j][i];
            assert(v == entry(shape, source));
            let ghost before = matrix(value_new@);
            let ghost before_coordinates = cell_list(value_coordinates@);
            assert(!entry(before, spot));
            value_new[j_new][i_new] = v;
            let ghost after = matrix(value_new@);
            assert(forall|t: Cell|
                in_box(t, w_new as int, h_new as int) && t != spot ==> entry(after, t) == entry(
                    before,
                    t,
                ));
            assert(entry(after, spot) == v);
            let ghost first_before = top_left;
            if v && j_new == 0 && i_new < top_left {
                top_left = i_new;
            }
            if v {
                value_coordinates.push((i_new, j_new));
            }
            proof {
                assert forall|s: Cell|
                    in_box(s, wi, hi) && scanned_before(s, i as int, j as int + 1) implies entry(
                    after,
                    #[trigger] landing(*rotation, flipped, s, wi, hi),
                ) == entry(shape, s) by {
                    lemma_landing_origin(*rotation, flipped, s, wi, hi);
                }
                assert forall|t: Cell|
                    in_box(t, w_new as int, h_new as int) && !scanned_before(
                        #[trigger] origin(*rotation, flipped, t, wi, hi),
                        i as int,
                        j as int + 1,
                    ) implies !entry(after, t) by {}
                assert(is_top_left(after, top_left as int)) by {
                    assert(after.len() == before.len());
                    if after.len() > 0 {
                        assert(after[0].len() == before[0].len());
                        assert forall|c: int| 0 <= c < after[0].len() && (c, 0int) != spot implies
                            #[trigger] after[0][c] == before[0][c] by {
                            assert(entry(after, (c, 0int)) == entry(before, (c, 0int)));
                        }
                        if has_filled(before[0]) {
                            assert(before[0][first_before as int]);
                            assert(after[0][first_before as int]);
                        }
                        if has_filled(after[0]) && !has_filled(before[0]) {
                            let k = choose|k: int| 0 <= k < after[0].len() && after[0][k];
                            assert((k, 0int) == spot);
                        }
                        if v && j_new == 0 {
                            assert(after[0][i_new as int]);
                        }
                    }
                }
                let grown = column_cells(shape, *rotation, flipped, i as int, j as int + 1);
                let column = column_cells(shape, *rotation, flipped, i as int, j as int);
                let left = scanned_cells(shape, *rotation, flipped, i as int);
                if v {
                    assert(cell_list(value_coordinates@) =~= before_coordinates.push(spot));
                    assert(left + column.push(spot) =~= (left + column).push(spot));
                } else {
                    assert(cell_list(value_coordinates@) =~= before_coordinates);
                }
            }
            j += 1;
        }
        i += 1;
    }
    proof {
        let out = matrix(value_new@);
        let goal = transformed(shape, *rotation, flipped);
        assert(out.len() == goal.len());
        assert forall|r: int| 0 <= r < out.len() implies out[r] =~= goal[r] by {
            assert(value_new@[r]@.len() == w_new);
            assert forall|c: int| 0 <= c < out[r].len() implies out[r][c] == goal[r][c] by {
                let t: Cell = (c, r);
                lemma_origin_landing(*rotation, flipped, t, wi, hi);
                let s = origin(*rotation, flipped, t, wi, hi);
                assert(entry(out, landing(*rotation, flipped, s, wi, hi)) == entry(shape, s));
            }
        }
        assert(out =~= goal);
    }
    (value_new, value_coordinates, top_left)
}

/// Whether two matrices have the same rows, entry for entry.
pub fn eq_sprites(a: &[Vec<bool>], b: &[Vec<bool>]) -> (same: bool)
    ensures
        same == (matrix(a@) == matrix(b@)),
{
    if a.len() != b.len() {
        assert(matrix(a@).len() != matrix(b@).len());
        return false;
    }
    let mut j: usize = 0;
    while j < a.len()
        invariant
            j <= a.len(),
            a.len() == b.len(),
            forall|r: int| 0 <= r < j ==> a@[r]@ == b@[r]@,
        decreases a.len() - j,
    {
        if a[j].len() != b[j].len() {
            assert(matrix(a@)[j as int] != matrix(b@)[j as int]);
            return false;
        }
        let mut i: usize = 0;
        while i < a[j].len()
            invariant
                j < a.len(),
                a.len() == b.len(),
                i <= a@[j as int]@.len(),
                a@[j as int]@.len() == b@[j as int]@.len(),
                forall|c: int| 0 <= c < i ==> a@[j as int]@[c] == b@[j as int]@[c],
            decreases a@[j as int]@.len() - i,
        {
            if a[j][i] != b[j][i] {
                assert(matrix(a@)[j as int] != matrix(b@)[j as int]);
                return false;
            }
            i += 1;
        }
        assert(a@[j as int]@ =~= b@[j as int]@);
        j += 1;
    }
    assert(matrix(a@) =~= matrix(b@));
    true
}

} // verus!
