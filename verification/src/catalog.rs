//! The catalog of all pieces.

use crate::piece::{extract_piece_from_board, piece_model, Piece, PieceModel};
use crate::template::{is_piece_name, lemma_names, name_position, names, PIECE_NAMES, RIM};
use vstd::prelude::*;

verus! {

/// What a complete catalog holds: the rim with its printed shape, and every
/// other piece with all its orientations, in the order of the piece symbols.
pub open spec fn catalog_model() -> Seq<PieceModel> {
    Seq::new(14, |k: int| piece_model(names()[k], k == 0))
}

/// All pieces, cut out of the board once and kept for the whole search.
#[derive(Debug)]
pub struct Catalog {
    // One piece for each piece symbol, in the order of the symbols.
    pieces: Vec<Piece>,
}

impl Catalog {
    /// The catalog holds the rim with its printed shape and every other
    /// piece with all its orientations.
    #[verifier::type_invariant]
    spec fn complete(&self) -> bool {
        &&& self.pieces@.len() == 14
        &&& forall|k: int|
            0 <= k < 14 ==> (#[trigger] self.pieces@[k])@ == piece_model(names()[k], k == 0)
    }

    /// The pieces of the catalog, in the order of the piece symbols.
    pub closed spec fn view(&self) -> Seq<PieceModel> {
        Seq::new(self.pieces@.len(), |k: int| self.pieces@[k]@)
    }

    /// Cuts all pieces out of the board.
    pub fn new() -> (catalog: Catalog)
        ensures
            catalog@ == catalog_model(),
    {
        let mut pieces: Vec<Piece> = Vec::new();
        let mut k: usize = 0;
        while k < 14
            invariant
                k <= 14,
                pieces@.len() == k,
                forall|n: int|
                    0 <= n < k ==> (#[trigger] pieces@[n])@ == piece_model(names()[n], n == 0),
            decreases 14 - k,
        {
            let name: char = PIECE_NAMES[k];
            assert(names()[k as int] == name);
            pieces.push(extract_piece_from_board(name, k == 0));
            k += 1;
        }
        let catalog = Catalog { pieces };
        assert(catalog@ =~= catalog_model());
        catalog
    }

    /// The piece with the symbol `name`.
    pub fn piece(&self, name: char) -> (piece: &Piece)
        requires
            is_piece_name(name),
        ensures
            piece.name == name,
            piece@ == piece_model(name, name == RIM),
    {
        proof {
            use_type_invariant(self);
            lemma_names();
        }
        let k: usize = name_position(name).unwrap();
        &self.pieces[k]
    }
}

} // verus!
