use vstd::prelude::*;

verus! {

/// One cell of a piece's bounding box.
#[derive(Clone, Copy, Debug, PartialEq, Eq, Hash, Structural)]
pub enum PieceState {
    Occupied,
    Free,
}

/// One cell of the field being packed.
#[derive(Clone, Copy, Debug, PartialEq, Eq, Structural)]
pub enum FieldState {
    /// Never available to a piece.
    Blocked,
    /// Covered by the piece with this identifier.
    Occupied(u8),
    /// Available, worth this score while it stays uncovered.
    Free(u8),
}

impl FieldState {
    pub open spec fn is_free(self) -> bool {
        self is Free
    }

    /// What the cell adds to a field's score.
    pub open spec fn score(self) -> nat {
        match self {
            FieldState::Free(s) => s as nat,
            _ => 0,
        }
    }
}

} // verus!
