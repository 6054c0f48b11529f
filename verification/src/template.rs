//! The printed board: which cells are playable and which piece each cell
//! belongs to in the printed tiling that defines the piece shapes.

use crate::cells::{in_box, Cell};
use vstd::prelude::*;

verus! {

/// Side length of the square board.
pub const SIZE: usize = 17;

/// The board, row by row. `x` marks a blocked cell; every other character is
/// the symbol of the piece that covers the cell in the printed tiling.
pub const BOARD: [&'static str; 17] = [
    "x0x1x0x2x0x2x0x2x",
    "11111112222222220",
    "x3x1x4x2x4x2x5x2x",
    "03111444445555555",
    "x3x1x4x6x4x5x5x7x",
    "33314446444555570",
    "x3x1x6x6x6x5x7x7x",
    "03333666667777777",
    "x3x8x6x6x6x9x7xax",
    "333888869999777a0",
    "xbx8x8x6x8x9x9xax",
    "0bccc888889999aaa",
    "xbxcx8xcx8xdx9xax",
    "bbbcccccdddd999a0",
    "xbxcxbxcxdxdxaxax",
    "0bbbbbcccddddaaaa",
    "xbx0xbx0xdx0xax0x",
];

/// The piece symbols. The first is the fixed rim that is part of every
/// board; the last is the piece that marks the target.
pub const PIECE_NAMES: [char; 14] = [
    '0',
    '1',
    '2',
    '3',
    '4',
    '5',
    '6',
    '7',
    '8',
    '9',
    'a',
    'b',
    'c',
    'd',
];

/// Symbol of a blocked cell.
pub const BLOCKED: char = 'x';

/// Symbol of a playable cell that no piece covers yet.
pub const FREE: char = '.';

/// Symbol of the fixed rim.
pub const RIM: char = '0';

/// Symbol of the piece that marks the target.
pub const TARGET_PIECE: char = 'd';

/// The board as a matrix of characters, indexed by row and then column.
pub open spec fn template() -> Seq<Seq<char>> {
    Seq::new(17, |r: int| BOARD[r]@)
}

/// The cells of the board that carry the symbol `name`.
pub open spec fn occurrences(name: char) -> Set<Cell> {
    Set::new(|c: Cell| in_box(c, 17, 17) && template()[c.1][c.0] == name)
}

/// The piece symbols as a sequence.
pub open spec fn names() -> Seq<char> {
    PIECE_NAMES@
}

/// Whether `name` is one of the piece symbols.
pub open spec fn is_piece_name(name: char) -> bool {
    exists|k: int| 0 <= k < 14 && #[trigger] names()[k] == name
}

/// Whether `name` is the symbol of a piece that the solver places, that is
/// any piece but the rim.
pub open spec fn is_placeable(name: char) -> bool {
    exists|k: int| 1 <= k < 14 && #[trigger] names()[k] == name
}

/// The board has seventeen rows of seventeen cells.
pub proof fn lemma_template_size()
    ensures
        template().len() == 17,
        forall|r: int| 0 <= r < 17 ==> (#[trigger] template()[r]).len() == 17,
{
    reveal_strlit("x0x1x0x2x0x2x0x2x");
    reveal_strlit("11111112222222220");
    reveal_strlit("x3x1x4x2x4x2x5x2x");
    reveal_strlit("03111444445555555");
    reveal_strlit("x3x1x4x6x4x5x5x7x");
    reveal_strlit("33314446444555570");
    reveal_strlit("x3x1x6x6x6x5x7x7x");
    reveal_strlit("03333666667777777");
    reveal_strlit("x3x8x6x6x6x9x7xax");
    reveal_strlit("333888869999777a0");
    reveal_strlit("xbx8x8x6x8x9x9xax");
    reveal_strlit("0bccc888889999aaa");
    reveal_strlit("xbxcx8xcx8xdx9xax");
    reveal_strlit("bbbcccccdddd999a0");
    reveal_strlit("xbxcxbxcxdxdxaxax");
    reveal_strlit("0bbbbbcccddddaaaa");
    reveal_strlit("xbx0xbx0xdx0xax0x");
    assert forall|r: int| 0 <= r < 17 implies (#[trigger] template()[r]).len() == 17 by {
        assert(template()[r] == BOARD[r]@);
    }
}

/// The piece symbols are fourteen different characters, none of which is the
/// symbol of a blocked or of a free cell.
pub proof fn lemma_names()
    ensures
        names().len() == 14,
        names().no_duplicates(),
        names()[0] == RIM,
        names()[13] == TARGET_PIECE,
        forall|k: int| 0 <= k < 14 ==> #[trigger] names()[k] != BLOCKED && names()[k] != FREE,
        forall|k: int| 1 <= k < 14 ==> #[trigger] names()[k] != RIM,
{
    assert(names() =~= seq![
        '0',
        '1',
        '2',
        '3',
        '4',
        '5',
        '6',
        '7',
        '8',
        '9',
        'a',
        'b',
        'c',
        'd',
    ]);
}

/// Every piece symbol is on the board.
pub proof fn lemma_names_occur()
    ensures
        forall|k: int| 0 <= k < 14 ==> exists|c: Cell| occurrences(#[trigger] names()[k]).contains(c),
{
    reveal_strlit("x0x1x0x2x0x2x0x2x");
    reveal_strlit("x3x1x4x2x4x2x5x2x");
    reveal_strlit("x3x1x4x6x4x5x5x7x");
    reveal_strlit("x3x8x6x6x6x9x7xax");
    reveal_strlit("xbx8x8x6x8x9x9xax");
    reveal_strlit("0bccc888889999aaa");
    reveal_strlit("xbxcx8xcx8xdx9xax");
    lemma_names();
    assert(occurrences('0').contains((1, 0)));
    assert(occurrences('1').contains((3, 0)));
    assert(occurrences('2').contains((7, 0)));
    assert(occurrences('3').contains((1, 2)));
    assert(occurrences('4').contains((5, 2)));
    assert(occurrences('5').contains((13, 2)));
    assert(occurrences('6').contains((7, 4)));
    assert(occurrences('7').contains((15, 4)));
    assert(occurrences('8').contains((3, 8)));
    assert(occurrences('9').contains((11, 8)));
    assert(occurrences('a').contains((15, 8)));
    assert(occurrences('b').contains((1, 10)));
    assert(occurrences('c').contains((2, 11)));
    assert(occurrences('d').contains((11, 12)));
    assert forall|k: int| 0 <= k < 14 implies exists|c: Cell|
        occurrences(#[trigger] names()[k]).contains(c) by {
        assert(names() =~= seq![
            '0',
            '1',
            '2',
            '3',
            '4',
            '5',
            '6',
            '7',
            '8',
            '9',
            'a',
            'b',
            'c',
            'd',
        ]);
    }
}

/// Every cell of the board is blocked or carries a piece symbol.
pub proof fn lemma_alphabet()
    ensures
        forall|r: int, c: int|
            0 <= r < 17 && 0 <= c < 17 ==> #[trigger] template()[r][c] == BLOCKED || is_piece_name(
                template()[r][c],
            ),
{
    reveal_strlit("x0x1x0x2x0x2x0x2x");
    reveal_strlit("11111112222222220");
    reveal_strlit("x3x1x4x2x4x2x5x2x");
    reveal_strlit("03111444445555555");
    reveal_strlit("x3x1x4x6x4x5x5x7x");
    reveal_strlit("33314446444555570");
    reveal_strlit("x3x1x6x6x6x5x7x7x");
    reveal_strlit("03333666667777777");
    reveal_strlit("x3x8x6x6x6x9x7xax");
    reveal_strlit("333888869999777a0");
    reveal_strlit("xbx8x8x6x8x9x9xax");
    reveal_strlit("0bccc888889999aaa");
    reveal_strlit("xbxcx8xcx8xdx9xax");
    reveal_strlit("bbbcccccdddd999a0");
    reveal_strlit("xbxcxbxcxdxdxaxax");
    reveal_strlit("0bbbbbcccddddaaaa");
    reveal_strlit("xbx0xbx0xdx0xax0x");
    assert(names() =~= seq![
        '0',
        '1',
        '2',
        '3',
        '4',
        '5',
        '6',
        '7',
        '8',
        '9',
        'a',
        'b',
        'c',
        'd',
    ]);
    assert(is_piece_name(names()[0]) && is_piece_name(names()[1]) && is_piece_name(names()[2])
        && is_piece_name(names()[3]) && is_piece_name(names()[4]) && is_piece_name(names()[5])
        && is_piece_name(names()[6]) && is_piece_name(names()[7]) && is_piece_name(names()[8])
        && is_piece_name(names()[9]) && is_piece_name(names()[10]) && is_piece_name(names()[11])
        && is_piece_name(names()[12]) && is_piece_name(names()[13]));
    assert forall|r: int, c: int| 0 <= r < 17 && 0 <= c < 17 implies #[trigger] template()[r][c]
        == BLOCKED || is_piece_name(template()[r][c]) by {
        let ch = template()[r][c];
        assert(template()[r] == BOARD[r]@);
        assert(ch == 'x' || ch == '0' || ch == '1' || ch == '2' || ch == '3' || ch == '4' || ch
            == '5' || ch == '6' || ch == '7' || ch == '8' || ch == '9' || ch == 'a' || ch == 'b'
            || ch == 'c' || ch == 'd');
    }
}

/// The cells of the target piece lie in columns 8 to 12 of rows 12 to 16.
pub proof fn lemma_target_piece_region()
    ensures
        forall|c: Cell| #[trigger]
            occurrences(TARGET_PIECE).contains(c) ==> 8 <= c.0 < 13 && 12 <= c.1 < 17,
        occurrences(TARGET_PIECE).contains((8, 13)),
        occurrences(TARGET_PIECE).contains((12, 15)),
        occurrences(TARGET_PIECE).contains((11, 12)),
        occurrences(TARGET_PIECE).contains((9, 16)),
        !occurrences(TARGET_PIECE).contains((9, 12)),
{
    reveal_strlit("x0x1x0x2x0x2x0x2x");
    reveal_strlit("11111112222222220");
    reveal_strlit("x3x1x4x2x4x2x5x2x");
    reveal_strlit("03111444445555555");
    reveal_strlit("x3x1x4x6x4x5x5x7x");
    reveal_strlit("33314446444555570");
    reveal_strlit("x3x1x6x6x6x5x7x7x");
    reveal_strlit("03333666667777777");
    reveal_strlit("x3x8x6x6x6x9x7xax");
    reveal_strlit("333888869999777a0");
    reveal_strlit("xbx8x8x6x8x9x9xax");
    reveal_strlit("0bccc888889999aaa");
    reveal_strlit("xbxcx8xcx8xdx9xax");
    reveal_strlit("bbbcccccdddd999a0");
    reveal_strlit("xbxcxbxcxdxdxaxax");
    reveal_strlit("0bbbbbcccddddaaaa");
    reveal_strlit("xbx0xbx0xdx0xax0x");
    assert forall|c: Cell| #[trigger] occurrences(TARGET_PIECE).contains(c) implies 8 <= c.0 < 13
        && 12 <= c.1 < 17 by {
        assert(template()[c.1] == BOARD[c.1]@);
    }
}

/// The character printed on the board at `row`, `col`.
pub fn template_cell(row: usize, col: usize) -> (c: char)
    requires
        row < SIZE,
        col < SIZE,
    ensures
        c == template()[row as int][col as int],
{
    proof {
        lemma_template_size();
        assert(template()[row as int] == BOARD[row as int]@);
    }
    BOARD[row].get_char(col)
}

/// The position of `name` among the piece symbols, if it is one.
pub fn name_position(name: char) -> (found: Option<usize>)
    ensures
        match found {
            Some(k) => k < 14 && names()[k as int] == name,
            None => !is_piece_name(name),
        },
{
    let mut k: usize = 0;
    while k < 14
        invariant
            k <= 14,
            forall|m: int| 0 <= m < k ==> names()[m] != name,
        decreases 14 - k,
    {
        if PIECE_NAMES[k] == name {
            return Some(k);
        }
        k += 1;
    }
    None
}

} // verus!
