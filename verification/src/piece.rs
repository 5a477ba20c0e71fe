//! Board model: squares, colors, piece kinds, pieces, moves, and the
//! spec-level predicates the whole engine is stated over.

use vstd::prelude::*;

verus! {

/// A board square as (file, rank), each coordinate in the closed range
/// [0, 7] on a well-formed board.
pub type Position = (u8, u8);

/// The kind of a piece. An empty square is represented by the absence
/// of a piece, never by a sentinel kind.
#[derive(Debug, Clone, Copy, PartialEq, Eq, Structural)]
pub enum Kind {
    Queen,
    King,
    Rook,
    Bishop,
    Knight,
    Pawn,
}

/// The side a piece belongs to.
#[derive(Debug, Clone, Copy, PartialEq, Eq, Structural)]
pub enum PieceColor {
    Black,
    White,
}

/// A piece snapshot: kind, color and the square it stands on. Pieces
/// are immutable values passed into queries; the engine never mutates
/// the caller's collection.
#[derive(Debug, Clone, Copy)]
pub struct Piece {
    pub kind: Kind,
    pub color: PieceColor,
    pub pos: Position,
}

/// One entry of the move history: the moved piece's pre-move state and
/// the squares it moved between. The engine only reads the last entry
/// (for en passant eligibility).
#[derive(Debug, Clone, Copy)]
pub struct Move {
    pub piece: Piece,
    pub from: Position,
    pub to: Position,
}

/// Whose turn it is. Owned by the caller; `change` is the pure turn
/// transition.
#[derive(Debug, Clone, Copy)]
pub struct Turn(pub PieceColor);

/// The other side.
pub open spec fn opposite(c: PieceColor) -> PieceColor {
    match c {
        PieceColor::White => PieceColor::Black,
        PieceColor::Black => PieceColor::White,
    }
}

/// True when (f, r) lies on the 8x8 board.
pub open spec fn on_board(f: int, r: int) -> bool {
    0 <= f < 8 && 0 <= r < 8
}

/// Some piece of the snapshot stands on (f, r).
pub open spec fn occupied_at(board: Seq<Piece>, f: int, r: int) -> bool {
    exists|i: int| 0 <= i < board.len() && (#[trigger] board[i]).pos.0 == f && board[i].pos.1 == r
}

/// Some piece of color `c` stands on (f, r).
pub open spec fn occupied_by(board: Seq<Piece>, c: PieceColor, f: int, r: int) -> bool {
    exists|i: int|
        0 <= i < board.len() && (#[trigger] board[i]).pos.0 == f && board[i].pos.1 == r
            && board[i].color == c
}

/// The board invariant the engine relies on: no two pieces occupy the
/// same square. The caller must guarantee it before querying.
pub open spec fn distinct_positions(board: Seq<Piece>) -> bool {
    forall|i: int, j: int|
        0 <= i < board.len() && 0 <= j < board.len() && i != j ==> !((#[trigger] board[i]).pos.0
            == (#[trigger] board[j]).pos.0 && board[i].pos.1 == board[j].pos.1)
}

/// A king of color `c` stands somewhere on the board. Under the full
/// board invariant there is exactly one; absence is a caller-side
/// state-corruption bug, so king-locating queries require this.
pub open spec fn has_king(board: Seq<Piece>, c: PieceColor) -> bool {
    exists|i: int|
        0 <= i < board.len() && (#[trigger] board[i]).kind == Kind::King && board[i].color == c
}

/// On a board without duplicate squares, a square holds pieces of at
/// most one color.
pub proof fn lemma_one_color_per_square(
    board: Seq<Piece>,
    c1: PieceColor,
    c2: PieceColor,
    f: int,
    r: int,
)
    requires
        distinct_positions(board),
        occupied_by(board, c1, f, r),
        occupied_by(board, c2, f, r),
    ensures
        c1 == c2,
{
    let i = choose|i: int|
        0 <= i < board.len() && (#[trigger] board[i]).pos.0 == f && board[i].pos.1 == r
            && board[i].color == c1;
    let j = choose|j: int|
        0 <= j < board.len() && (#[trigger] board[j]).pos.0 == f && board[j].pos.1 == r
            && board[j].color == c2;
    assert(i == j);
}

impl Piece {
    /// A white piece of the given kind on the given square.
    pub fn white(kind: Kind, pos: Position) -> (p: Piece)
        ensures
            p.kind == kind,
            p.color == PieceColor::White,
            p.pos == pos,
    {
        Piece { kind, color: PieceColor::White, pos }
    }

    /// A black piece of the given kind on the given square.
    pub fn black(kind: Kind, pos: Position) -> (p: Piece)
        ensures
            p.kind == kind,
            p.color == PieceColor::Black,
            p.pos == pos,
    {
        Piece { kind, color: PieceColor::Black, pos }
    }

    /// Change a pawn's kind to `to`. Rejected (the piece is left
    /// unchanged) unless the piece is a pawn and the target is one of
    /// queen, rook, bishop or knight: a pawn never promotes to a pawn
    /// again or to a king. Position and color are never touched.
    pub fn promotion(&mut self, to: Kind)
        ensures
            old(self).kind == Kind::Pawn && to != Kind::Pawn && to != Kind::King ==> *final(self)
                == (Piece { kind: to, ..*old(self) }),
            !(old(self).kind == Kind::Pawn && to != Kind::Pawn && to != Kind::King)
                ==> *final(self) == *old(self),
    {
        if self.kind == Kind::Pawn && to != Kind::Pawn && to != Kind::King {
            self.kind = to;
        }
    }
}

impl Turn {
    /// After a move the turn passes to the other side.
    pub fn change(&mut self)
        ensures
            final(self).0 == opposite(old(self).0),
    {
        match self.0 {
            PieceColor::White => {
                self.0 = PieceColor::Black;
            },
            PieceColor::Black => {
                self.0 = PieceColor::White;
            },
        }
    }
}

impl Default for Turn {
    /// White moves first.
    fn default() -> (t: Self)
        ensures
            t.0 == PieceColor::White,
    {
        Turn(PieceColor::White)
    }
}

} // verus!
