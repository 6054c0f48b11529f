//! Plain-text pictures of pieces and boards.

use crate::board::BoardState;
use crate::geometry::{matrix, Rotation};
use crate::piece::{Piece, PieceModel, Sprite, SpriteModel};
use vstd::prelude::*;

verus! {

/// `String::push` of the standard library: the text grows by the one
/// character `ch` at its end, and nothing else of it changes.
pub assume_specification[ String::push ](text: &mut String, ch: char)
    ensures
        final(text)@ == old(text)@.push(ch),
;

/// The character that stands for a free, blocked or empty cell in a picture
/// of a piece.
pub const BLANK: char = '.';

/// The decimal digit `d`.
pub open spec fn digit(d: nat) -> char {
    if d == 0 {
        '0'
    } else if d == 1 {
        '1'
    } else if d == 2 {
        '2'
    } else if d == 3 {
        '3'
    } else if d == 4 {
        '4'
    } else if d == 5 {
        '5'
    } else if d == 6 {
        '6'
    } else if d == 7 {
        '7'
    } else if d == 8 {
        '8'
    } else {
        '9'
    }
}

/// The number `n` in decimal digits, without leading zeros.
pub open spec fn decimal(n: nat) -> Seq<char>
    decreases n,
{
    if n < 10 {
        seq![digit(n)]
    } else {
        decimal(n / 10).push(digit(n % 10))
    }
}

/// The name of a rotation.
pub open spec fn rotation_text(rotation: Rotation) -> Seq<char> {
    match rotation {
        Rotation::R0 => "R0"@,
        Rotation::R90 => "R90"@,
        Rotation::R180 => "R180"@,
        Rotation::R270 => "R270"@,
    }
}

/// The word for a truth value.
pub open spec fn bool_text(b: bool) -> Seq<char> {
    if b {
        "true"@
    } else {
        "false"@
    }
}

/// One row of a matrix: `name` for a set entry, a dot for any other, and a
/// line break at the end.
pub open spec fn row_text(row: Seq<bool>, name: char) -> Seq<char> {
    Seq::new(
        row.len(),
        |i: int|
            if row[i] {
                name
            } else {
                BLANK
            },
    ).push('\n')
}

/// The first `upto` rows of a matrix, one after the other.
pub open spec fn rows_text(cells: Seq<Seq<bool>>, name: char, upto: int) -> Seq<char>
    decreases upto,
{
    if upto <= 0 {
        Seq::empty()
    } else {
        rows_text(cells, name, upto - 1) + row_text(cells[upto - 1], name)
    }
}

/// The two lines above the matrix of an orientation: its number, and then
/// the rotation, whether it is mirrored, and the offset of its top row.
pub open spec fn heading_text(v: SpriteModel, number: nat) -> Seq<char> {
    "Variant: "@ + decimal(number) + "\n"@ + "Rotation: "@ + rotation_text(v.rotation)
        + ", flipped: "@ + bool_text(v.flipped) + ", top-left: "@ + decimal(v.top_left as nat)
        + "\n"@
}

/// The picture of one orientation of a piece: its heading, its matrix, and
/// two empty lines.
pub open spec fn variant_text(v: SpriteModel, name: char, number: nat) -> Seq<char> {
    heading_text(v, number) + rows_text(v.cells, name, v.cells.len() as int) + "\n"@ + "\n"@
}

/// The pictures of the first `upto` orientations of a piece.
pub open spec fn variants_text(p: PieceModel, upto: int) -> Seq<char>
    decreases upto,
{
    if upto <= 0 {
        Seq::empty()
    } else {
        variants_text(p, upto - 1) + variant_text(p.variants[upto - 1], p.name, (upto - 1) as nat)
    }
}

/// The picture of a piece: the pictures of all its orientations.
pub open spec fn piece_text(p: PieceModel) -> Seq<char> {
    variants_text(p, p.variants.len() as int)
}

/// One row of a grid: every cell followed by a space, and a line break at
/// the end.
pub open spec fn grid_row_text(row: Seq<char>) -> Seq<char> {
    Seq::new(
        2 * row.len(),
        |i: int|
            if i % 2 == 0 {
                row[i / 2]
            } else {
                ' '
            },
    ).push('\n')
}

/// The first `upto` rows of a grid, one after the other.
pub open spec fn grid_text(g: Seq<Seq<char>>, upto: int) -> Seq<char>
    decreases upto,
{
    if upto <= 0 {
        Seq::empty()
    } else {
        grid_text(g, upto - 1) + grid_row_text(g[upto - 1])
    }
}

/// The character of a decimal digit.
fn digit_char(d: usize) -> (c: char)
    requires
        d < 10,
    ensures
        c == digit(d as nat),
{
    match d {
        0 => '0',
        1 => '1',
        2 => '2',
        3 => '3',
        4 => '4',
        5 => '5',
        6 => '6',
        7 => '7',
        8 => '8',
        _ => '9',
    }
}

/// Writes `n` in decimal digits at the end of `out`.
fn push_decimal(out: &mut String, n: usize)
    ensures
        final(out)@ == old(out)@ + decimal(n as nat),
    decreases n,
{
    if n >= 10 {
        push_decimal(out, n / 10);
    }
    let ghost before = out@;
    out.push(digit_char(n % 10));
    proof {
        if n >= 10 {
            assert(out@ =~= old(out)@ + decimal((n / 10) as nat).push(digit((n % 10) as nat)));
        } else {
            assert(out@ =~= old(out)@ + seq![digit(n as nat)]);
        }
    }
}

/// Writes one row of a matrix at the end of `out`.
fn push_row(out: &mut String, row: &Vec<bool>, name: char)
    ensures
        final(out)@ == old(out)@ + row_text(row@, name),
{
    let ghost start = out@;
    let ghost goal = row_text(row@, name);
    let mut i: usize = 0;
    assert(out@ =~= start + goal.take(0));
    while i < row.len()
        invariant
            i <= row.len(),
            goal == row_text(row@, name),
            out@ == start + goal.take(i as int),
        decreases row.len() - i,
    {
        if row[i] {
            out.push(name);
        } else {
            out.push(BLANK);
        }
        assert(out@ =~= start + goal.take(i as int + 1));
        i += 1;
    }
    out.push('\n');
    assert(out@ =~= start + goal);
}

/// Writes one row of a grid at the end of `out`.
fn push_grid_row(out: &mut String, row: &Vec<char>)
    ensures
        final(out)@ == old(out)@ + grid_row_text(row@),
{
    let ghost start = out@;
    let ghost goal = grid_row_text(row@);
    let mut i: usize = 0;
    assert(out@ =~= start + goal.take(0));
    while i < row.len()
        invariant
            i <= row.len(),
            goal == grid_row_text(row@),
            out@ == start + goal.take(2 * i),
        decreases row.len() - i,
    {
        out.push(row[i]);
        out.push(' ');
        assert(out@ =~= start + goal.take(2 * i + 2));
        i += 1;
    }
    out.push('\n');
    assert(out@ =~= start + goal);
}

/// Writes the heading of orientation number `number` at the end of `out`.
fn push_heading(out: &mut String, variant: &Sprite, number: usize)
    ensures
        final(out)@ == old(out)@ + heading_text(variant@, number as nat),
{
    let ghost start = out@;
    let ghost v = variant@;
    out.append("Variant: ");
    let ghost mut acc = "Variant: "@;
    assert(out@ =~= start + acc);
    push_decimal(out, number);
    proof {
        acc = acc + decimal(number as nat);
    }
    assert(out@ =~= start + acc);
    out.append("\n");
    proof {
        acc = acc + "\n"@;
    }
    assert(out@ =~= start + acc);
    out.append("Rotation: ");
    proof {
        acc = acc + "Rotation: "@;
    }
    assert(out@ =~= start + acc);
    match variant.rotation() {
        Rotation::R0 => out.append("R0"),
        Rotation::R90 => out.append("R90"),
        Rotation::R180 => out.append("R180"),
        Rotation::R270 => out.append("R270"),
    }
    proof {
        acc = acc + rotation_text(v.rotation);
    }
    assert(out@ =~= start + acc);
    out.append(", flipped: ");
    proof {
        acc = acc + ", flipped: "@;
    }
    assert(out@ =~= start + acc);
    if variant.flipped() {
        out.append("true");
    } else {
        out.append("false");
    }
    proof {
        acc = acc + bool_text(v.flipped);
    }
    assert(out@ =~= start + acc);
    out.append(", top-left: ");
    proof {
        acc = acc + ", top-left: "@;
    }
    assert(out@ =~= start + acc);
    push_decimal(out, variant.top_left());
    proof {
        acc = acc + decimal(v.top_left as nat);
    }
    assert(out@ =~= start + acc);
    out.append("\n");
    proof {
        acc = acc + "\n"@;
    }
    assert(out@ =~= start + acc);
}

/// Writes the picture of orientation number `number` of the piece `name` at
/// the end of `out`.
fn push_variant(out: &mut String, variant: &Sprite, name: char, number: usize)
    ensures
        final(out)@ == old(out)@ + variant_text(variant@, name, number as nat),
{
    let ghost start = out@;
    let ghost v = variant@;
    push_heading(out, variant, number);
    let ghost head = heading_text(v, number as nat);
    let value = variant.value();
    let mut j: usize = 0;
    assert(out@ =~= start + (head + rows_text(v.cells, name, 0)));
    while j < value.len()
        invariant
            j <= value@.len(),
            matrix(value@) == v.cells,
            out@ == start + (head + rows_text(v.cells, name, j as int)),
        decreases value@.len() - j,
    {
        assert(v.cells[j as int] == value@[j as int]@);
        push_row(out, &value[j], name);
        assert(out@ =~= start + (head + rows_text(v.cells, name, j as int + 1))) by {
            let done = rows_text(v.cells, name, j as int);
            let row = row_text(v.cells[j as int], name);
            assert(start + (head + done) + row =~= start + (head + (done + row)));
        }
        j += 1;
    }
    let ghost body = head + rows_text(v.cells, name, v.cells.len() as int);
    out.append("\n");
    assert(out@ =~= start + (body + "\n"@));
    out.append("\n");
    assert(out@ =~= start + (body + "\n"@ + "\n"@));
}

impl Piece {
    /// A picture of the piece in plain text: for each orientation its
    /// number, how it was made, and its matrix drawn with the symbol of the
    /// piece for set entries and dots for the others.
    pub fn render(&self) -> (text: String)
        ensures
            text@ == piece_text(self@),
    {
        let mut out = String::new();
        let mut k: usize = 0;
        assert(out@ =~= variants_text(self@, 0));
        while k < self.variants.len()
            invariant
                k <= self.variants@.len(),
                out@ == variants_text(self@, k as int),
            decreases self.variants@.len() - k,
        {
            assert(self@.variants[k as int] == self.variants@[k as int]@);
            push_variant(&mut out, &self.variants[k], self.name, k);
            k += 1;
        }
        out
    }
}

impl BoardState {
    /// A picture of the grid in plain text: row by row, every cell followed
    /// by a space.
    pub fn render(&self) -> (text: String)
        ensures
            text@ == grid_text(self@.grid, self@.grid.len() as int),
    {
        let mut out = String::new();
        let mut r: usize = 0;
        let ghost g = self@.grid;
        assert(out@ =~= grid_text(g, 0));
        while r < self.state.len()
            invariant
                r <= self.state@.len(),
                g == self@.grid,
                out@ == grid_text(g, r as int),
            decreases self.state@.len() - r,
        {
            assert(g[r as int] == self.state@[r as int]@);
            push_grid_row(&mut out, &self.state[r]);
            r += 1;
        }
        out
    }
}

} // verus!
