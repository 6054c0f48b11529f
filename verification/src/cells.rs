//! Sets of grid cells and the counting facts the rest of the crate relies on.
//!
//! A cell is a pair `(column, row)` of mathematical integers. Shapes, board
//! regions and footprints are all modelled as sets of cells, so that
//! statements such as "turning a shape keeps its number of cells" become
//! statements about injective images of finite sets.

use vstd::prelude::*;
use vstd::relations::injective_on;
use vstd::set_lib::{lemma_int_range, lemma_map_size, lemma_set_subset_finite, set_int_range};

verus! {

/// A grid position, written `(column, row)`.
pub type Cell = (int, int);

/// Whether `c` lies in the rectangle of `w` columns and `h` rows at the origin.
pub open spec fn in_box(c: Cell, w: int, h: int) -> bool {
    0 <= c.0 < w && 0 <= c.1 < h
}

/// All cells of the rectangle of `w` columns and `h` rows at the origin.
pub open spec fn box_cells(w: int, h: int) -> Set<Cell> {
    Set::new(|c: Cell| in_box(c, w, h))
}

/// Whether `a` comes before `b` when a grid is read row by row from the top,
/// each row from left to right.
pub open spec fn comes_before(a: Cell, b: Cell) -> bool {
    a.1 < b.1 || (a.1 == b.1 && a.0 < b.0)
}

/// The filled cells of a boolean matrix, as `(column, row)` pairs.
pub open spec fn filled(shape: Seq<Seq<bool>>) -> Set<Cell> {
    Set::new(|c: Cell| 0 <= c.1 < shape.len() && 0 <= c.0 < shape[c.1].len() && shape[c.1][c.0])
}

/// A matrix with at least one row whose rows all have the same length.
pub open spec fn is_rect(shape: Seq<Seq<bool>>) -> bool {
    &&& shape.len() > 0
    &&& forall|j: int| 0 <= j < shape.len() ==> (#[trigger] shape[j]).len() == shape[0].len()
}

/// Moves a cell by `(dx, dy)`.
pub open spec fn shift(c: Cell, dx: int, dy: int) -> Cell {
    (c.0 + dx, c.1 + dy)
}

/// The set `s` moved by `(dx, dy)`.
pub open spec fn shifted(s: Set<Cell>, dx: int, dy: int) -> Set<Cell> {
    Set::new(|c: Cell| s.contains(shift(c, -dx, -dy)))
}

/// A rectangle holds finitely many cells.
pub proof fn lemma_box_finite(w: int, h: int)
    ensures
        box_cells(w, h).finite(),
    decreases h,
{
    if h <= 0 || w <= 0 {
        assert(box_cells(w, h) =~= Set::<Cell>::empty());
    } else {
        lemma_box_finite(w, h - 1);
        lemma_int_range(0, w);
        let last_row = h - 1;
        let lift = |x: int| (x, last_row);
        let row = set_int_range(0, w).map(lift);
        set_int_range(0, w).lemma_map_finite(lift);
        assert forall|c: Cell| box_cells(w, h).contains(c) <==> box_cells(w, h - 1).union(
            row,
        ).contains(c) by {
            if in_box(c, w, h) && c.1 == last_row {
                assert(set_int_range(0, w).contains(c.0));
                assert(lift(c.0) == c);
            }
        }
        assert(box_cells(w, h) =~= box_cells(w, h - 1).union(row));
    }
}

/// Any set of cells inside a rectangle is finite.
pub proof fn lemma_boxed_finite(s: Set<Cell>, w: int, h: int)
    requires
        forall|c: Cell| s.contains(c) ==> in_box(c, w, h),
    ensures
        s.finite(),
{
    lemma_box_finite(w, h);
    assert(s.subset_of(box_cells(w, h)));
    lemma_set_subset_finite(box_cells(w, h), s);
}

/// The filled cells of a rectangular matrix lie inside its rectangle.
pub proof fn lemma_filled_finite(shape: Seq<Seq<bool>>)
    requires
        is_rect(shape),
    ensures
        filled(shape).finite(),
        forall|c: Cell| filled(shape).contains(c) ==> in_box(c, shape[0].len() as int, shape.len() as int),
{
    lemma_boxed_finite(filled(shape), shape[0].len() as int, shape.len() as int);
}

/// Moving a finite set keeps it finite and keeps its size.
pub proof fn lemma_shifted_len(s: Set<Cell>, dx: int, dy: int)
    requires
        s.finite(),
    ensures
        shifted(s, dx, dy).finite(),
        shifted(s, dx, dy).len() == s.len(),
{
    let f = |c: Cell| shift(c, dx, dy);
    assert forall|c: Cell| shifted(s, dx, dy).contains(c) <==> s.map(f).contains(c) by {
        if shifted(s, dx, dy).contains(c) {
            let p = shift(c, -dx, -dy);
            assert(s.contains(p) && f(p) == c);
        }
    }
    assert(shifted(s, dx, dy) =~= s.map(f));
    assert(injective_on(f, s));
    lemma_map_size(s, shifted(s, dx, dy), f);
}

} // verus!
