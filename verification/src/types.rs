//! Pieces and moves.
use vstd::prelude::*;

verus! {

#[derive(Clone, Copy, Debug, PartialEq, Eq, Structural)]
pub enum Color {
    White,
    Black,
}

impl Color {
    pub open spec fn other(self) -> Color {
        match self {
            Color::White => Color::Black,
            Color::Black => Color::White,
        }
    }

    pub open spec fn number(self) -> int {
        match self {
            Color::White => 0,
            Color::Black => 1,
        }
    }

    /// The side that is not this one.
    pub fn opposite(self) -> (r: Color)
        ensures
            r == self.other(),
    {
        match self {
            Color::White => Color::Black,
            Color::Black => Color::White,
        }
    }

    /// The position of this side in tables.
    pub fn index(self) -> (r: usize)
        ensures
            r == self.number(),
            r < 2,
    {
        match self {
            Color::White => 0,
            Color::Black => 1,
        }
    }
}

#[derive(Clone, Copy, Debug, PartialEq, Eq, Structural)]
pub enum PieceType {
    Pawn,
    Knight,
    Bishop,
    Rook,
    Queen,
    King,
    /// What stands on an empty square.
    Absent,
}

impl PieceType {
    pub open spec fn number(self) -> int {
        match self {
            PieceType::Pawn => 0,
            PieceType::Knight => 1,
            PieceType::Bishop => 2,
            PieceType::Rook => 3,
            PieceType::Queen => 4,
            PieceType::King => 5,
            PieceType::Absent => 6,
        }
    }

    /// The position of this type in tables.
    pub fn index(self) -> (r: usize)
        ensures
            r == self.number(),
            r < 7,
    {
        match self {
            PieceType::Pawn => 0,
            PieceType::Knight => 1,
            PieceType::Bishop => 2,
            PieceType::Rook => 3,
            PieceType::Queen => 4,
            PieceType::King => 5,
            PieceType::Absent => 6,
        }
    }
}

/// What stands on a square.
#[derive(Clone, Copy, Debug, PartialEq, Eq, Structural)]
pub enum Piece {
    Empty,
    Of(Color, PieceType),
}

impl Piece {
    pub open spec fn kind(self) -> PieceType {
        match self {
            Piece::Empty => PieceType::Absent,
            Piece::Of(_, kind) => kind,
        }
    }

    pub open spec fn has_color(self, color: Color) -> bool {
        self matches Piece::Of(c, _) && c == color
    }

    /// The type of the piece, whichever side it belongs to.
    pub fn piece_type(self) -> (r: PieceType)
        ensures
            r == self.kind(),
    {
        match self {
            Piece::Empty => PieceType::Absent,
            Piece::Of(_, kind) => kind,
        }
    }

    /// Whether the piece belongs to a side.
    pub fn is_color(self, color: Color) -> (r: bool)
        ensures
            r == self.has_color(color),
    {
        match self {
            Piece::Empty => false,
            Piece::Of(c, _) => c == color,
        }
    }
}

/// The ways in which a move can be special.
#[derive(Clone, Copy, Debug, PartialEq, Eq, Structural)]
pub enum MoveKind {
    Normal,
    DoublePush,
    Castling,
    Capture,
    EnPassant,
    PromotionKnight,
    PromotionBishop,
    PromotionRook,
    PromotionQueen,
    PromotionCaptureKnight,
    PromotionCaptureBishop,
    PromotionCaptureRook,
    PromotionCaptureQueen,
}

impl MoveKind {
    pub open spec fn number(self) -> int {
        match self {
            MoveKind::Normal => 0,
            MoveKind::DoublePush => 1,
            MoveKind::Castling => 2,
            MoveKind::Capture => 4,
            MoveKind::EnPassant => 5,
            MoveKind::PromotionKnight => 8,
            MoveKind::PromotionBishop => 9,
            MoveKind::PromotionRook => 10,
            MoveKind::PromotionQueen => 11,
            MoveKind::PromotionCaptureKnight => 12,
            MoveKind::PromotionCaptureBishop => 13,
            MoveKind::PromotionCaptureRook => 14,
            MoveKind::PromotionCaptureQueen => 15,
        }
    }

    /// The code of this kind in a move.
    pub fn code(self) -> (r: u16)
        ensures
            r == self.number(),
            r < 16,
    {
        match self {
            MoveKind::Normal => 0,
            MoveKind::DoublePush => 1,
            MoveKind::Castling => 2,
            MoveKind::Capture => 4,
            MoveKind::EnPassant => 5,
            MoveKind::PromotionKnight => 8,
            MoveKind::PromotionBishop => 9,
            MoveKind::PromotionRook => 10,
            MoveKind::PromotionQueen => 11,
            MoveKind::PromotionCaptureKnight => 12,
            MoveKind::PromotionCaptureBishop => 13,
            MoveKind::PromotionCaptureRook => 14,
            MoveKind::PromotionCaptureQueen => 15,
        }
    }
}

/// A move: six bits for the square it leaves, six for the square it enters, and four for its
/// kind. Squares are numbered from 0 for a1 along the ranks to 63 for h8.
#[derive(Clone, Copy, Debug, PartialEq, Eq, Structural)]
pub struct Move {
    pub bits: u16,
}

impl Move {
    pub open spec fn source(self) -> int {
        self.bits as int % 64
    }

    pub open spec fn target(self) -> int {
        self.bits as int / 64 % 64
    }

    pub open spec fn kind_code(self) -> int {
        self.bits as int / 4096
    }

    /// The absence of a move.
    pub open spec fn absent() -> Move {
        Move { bits: 0 }
    }

    pub open spec fn en_passant(self) -> bool {
        self.kind_code() == MoveKind::EnPassant.number()
    }

    /// The kinds from 8 on are promotions, with the new piece in their two low bits.
    pub open spec fn promotion(self) -> bool {
        self.kind_code() >= 8
    }

    pub open spec fn promotes_to(self) -> PieceType {
        if self.kind_code() % 4 == 0 {
            PieceType::Knight
        } else if self.kind_code() % 4 == 1 {
            PieceType::Bishop
        } else if self.kind_code() % 4 == 2 {
            PieceType::Rook
        } else {
            PieceType::Queen
        }
    }

    /// A move between two squares.
    pub fn new(from: u8, to: u8, kind: MoveKind) -> (r: Move)
        requires
            from < 64,
            to < 64,
        ensures
            r.source() == from,
            r.target() == to,
            r.kind_code() == kind.number(),
    {
        Move { bits: from as u16 + 64 * to as u16 + 4096 * kind.code() }
    }

    /// The absence of a move.
    pub fn null() -> (r: Move)
        ensures
            r == Move::absent(),
    {
        Move { bits: 0 }
    }

    /// Whether this is a move at all.
    pub fn is_present(self) -> (r: bool)
        ensures
            r == (self != Move::absent()),
    {
        self.bits != 0
    }

    /// The square that the move leaves.
    pub fn from(self) -> (r: u8)
        ensures
            r == self.source(),
            r < 64,
    {
        (self.bits % 64) as u8
    }

    /// The square that the move enters.
    pub fn to(self) -> (r: u8)
        ensures
            r == self.target(),
            r < 64,
    {
        (self.bits / 64 % 64) as u8
    }

    /// Whether the move captures a pawn in passing.
    pub fn is_en_passant(self) -> (r: bool)
        ensures
            r == self.en_passant(),
    {
        self.bits / 4096 == 5
    }

    /// Whether the move promotes a pawn.
    pub fn is_promotion(self) -> (r: bool)
        ensures
            r == self.promotion(),
    {
        self.bits / 4096 >= 8
    }

    /// What a pawn is promoted to.
    pub fn promo_piece_type(self) -> (r: PieceType)
        ensures
            r == self.promotes_to(),
    {
        let low: u16 = self.bits / 4096 % 4;
        if low == 0 {
            PieceType::Knight
        } else if low == 1 {
            PieceType::Bishop
        } else if low == 2 {
            PieceType::Rook
        } else {
            PieceType::Queen
        }
    }
}

/// A move and its score in move ordering.
#[derive(Clone, Copy, Debug, PartialEq, Eq, Structural)]
pub struct MoveEntry {
    pub mv: Move,
    pub score: i32,
}

/// A move is made of its squares and its kind, and nothing else.
pub proof fn a_move_is_its_squares_and_kind(mv: Move, other: Move)
    ensures
        mv.bits == mv.source() + 64 * mv.target() + 4096 * mv.kind_code(),
        0 <= mv.source() < 64,
        0 <= mv.target() < 64,
        0 <= mv.kind_code() < 16,
        (mv == Move::absent()) == (mv.source() == 0 && mv.target() == 0 && mv.kind_code() == 0),
        mv.source() == other.source() && mv.target() == other.target() && mv.kind_code()
            == other.kind_code() ==> mv == other,
{
}

/// Whether a move captures in passing, or promotes and to what, is a matter of its kind alone,
/// whatever its squares.
pub proof fn the_kind_tells_what_is_special(mv: Move, kind: MoveKind)
    requires
        mv.kind_code() == kind.number(),
    ensures
        mv.en_passant() == (kind == MoveKind::EnPassant),
        mv.promotion() == (kind == MoveKind::PromotionKnight || kind == MoveKind::PromotionBishop
            || kind == MoveKind::PromotionRook || kind == MoveKind::PromotionQueen || kind
            == MoveKind::PromotionCaptureKnight || kind == MoveKind::PromotionCaptureBishop || kind
            == MoveKind::PromotionCaptureRook || kind == MoveKind::PromotionCaptureQueen),
        mv.promotion() ==> (mv.promotes_to() == PieceType::Queen) == (kind
            == MoveKind::PromotionQueen || kind == MoveKind::PromotionCaptureQueen),
        mv.promotion() ==> (mv.promotes_to() == PieceType::Rook) == (kind == MoveKind::PromotionRook
            || kind == MoveKind::PromotionCaptureRook),
        mv.promotion() ==> (mv.promotes_to() == PieceType::Bishop) == (kind
            == MoveKind::PromotionBishop || kind == MoveKind::PromotionCaptureBishop),
        mv.promotion() ==> (mv.promotes_to() == PieceType::Knight) == (kind
            == MoveKind::PromotionKnight || kind == MoveKind::PromotionCaptureKnight),
{
}

/// Different kinds of moves have different codes, different types of pieces different places in
/// tables, and the two sides are each other's opponents.
pub proof fn tables_keep_things_apart(
    a: MoveKind,
    b: MoveKind,
    p: PieceType,
    q: PieceType,
    c: Color,
    piece: Piece,
)
    ensures
        a.number() == b.number() ==> a == b,
        p.number() == q.number() ==> p == q,
        c.other() != c,
        c.other().other() == c,
        c.other().number() + c.number() == 1,
        piece == Piece::Empty ==> piece.kind() == PieceType::Absent && !piece.has_color(c),
        piece == Piece::Of(c, p) ==> piece.kind() == p && piece.has_color(c) && !piece.has_color(
            c.other(),
        ),
{
}

} // verus!
