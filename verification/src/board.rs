//! The position: what the picker reads of it.
use crate::bitboard::Bitboard;
use crate::types::{Color, Move, MoveEntry, Piece, PieceType};
use vstd::prelude::*;

verus! {

/// The first item from position `i` on that satisfies a condition.
pub open spec fn find<T>(items: Seq<T>, wanted: spec_fn(T) -> bool, i: int) -> Option<T>
    decreases items.len() - i,
{
    if i < 0 || i >= items.len() {
        None
    } else if wanted(items[i]) {
        Some(items[i])
    } else {
        find(items, wanted, i + 1)
    }
}

/// What a sequence of captures on the target of a move gains at least for the side to move.
#[derive(Clone, Copy, Debug)]
pub struct Exchange {
    pub mv: Move,
    pub gain: i32,
}

/// A position with what its move generator, its legality test and its exchange evaluation say of
/// the moves in it.
pub struct Board {
    pub mailbox: [Piece; 64],
    pub side_to_move: Color,
    /// Whether the side to move is in check.
    pub in_check: bool,
    /// The squares that the opponent attacks.
    pub all_threats: Bitboard,
    /// The squares that the opponent attacks with each type of piece.
    pub threats_by: [Bitboard; 6],
    /// The squares from which each type of piece would give check.
    pub checks_by: [Bitboard; 6],
    /// Captures and promotions, in the order in which they are generated.
    pub noisy_moves: Vec<Move>,
    /// The other moves, in the order in which they are generated.
    pub quiet_moves: Vec<Move>,
    pub legal_moves: Vec<Move>,
    pub exchanges: Vec<Exchange>,
}

impl Board {
    pub open spec fn at(self, s: int) -> Piece {
        self.mailbox@[s]
    }

    pub open spec fn king_at(self, color: Color, s: int) -> bool {
        0 <= s < 64 && self.at(s) == Piece::Of(color, PieceType::King)
    }

    /// Each side has exactly one king.
    pub open spec fn wf(self) -> bool {
        &&& exists|s: int| self.king_at(Color::White, s)
        &&& exists|s: int| self.king_at(Color::Black, s)
        &&& forall|c: Color, s: int, t: int| #[trigger]
            self.king_at(c, s) && #[trigger] self.king_at(c, t) ==> s == t
    }

    pub open spec fn king(self, color: Color) -> int {
        choose|s: int| self.king_at(color, s)
    }

    /// The squares on which something stands.
    pub open spec fn occupied(self) -> spec_fn(int) -> bool {
        |s: int| 0 <= s < 64 && self.at(s) != Piece::Empty
    }

    pub open spec fn legal(self, mv: Move) -> bool {
        self.legal_moves@.contains(mv)
    }

    /// Whether the exchange that a move starts is worth at least `threshold`.
    pub open spec fn worth(self, mv: Move, threshold: int) -> bool {
        match find(self.exchanges@, |x: Exchange| x.mv == mv, 0) {
            Some(x) => x.gain >= threshold,
            None => false,
        }
    }

    /// Whether a side has exactly one king.
    fn has_one_king(&self, color: Color) -> (r: bool)
        ensures
            r == ((exists|s: int| self.king_at(color, s)) && forall|s: int, t: int| #[trigger]
                self.king_at(color, s) && #[trigger] self.king_at(color, t) ==> s == t),
    {
        let mut found: Option<u8> = None;
        let mut t: u8 = 0;
        while t < 64
            invariant
                t <= 64,
                found is None ==> forall|s: int| s < t ==> !(#[trigger] self.king_at(color, s)),
                found matches Some(k) ==> k < t && self.king_at(color, k as int) && forall|s: int|
                    s < t && #[trigger] self.king_at(color, s) ==> s == k,
            decreases 64 - t,
        {
            if self.piece_on(t) == Piece::Of(color, PieceType::King) {
                assert(self.king_at(color, t as int));
                if found.is_some() {
                    return false;
                }
                found = Some(t);
            }
            t = t + 1;
        }
        found.is_some()
    }

    /// Whether each side has exactly one king.
    pub fn is_wf(&self) -> (r: bool)
        ensures
            r == self.wf(),
    {
        let r = self.has_one_king(Color::White) && self.has_one_king(Color::Black);
        assert(r ==> self.wf()) by {
            assert forall|c: Color, s: int, t: int| r && #[trigger] self.king_at(c, s)
                && #[trigger] self.king_at(c, t) implies s == t by {
                match c {
                    Color::White => {},
                    Color::Black => {},
                }
            }
        }
        r
    }

    /// What stands on a square.
    pub fn piece_on(&self, s: u8) -> (r: Piece)
        requires
            s < 64,
        ensures
            r == self.at(s as int),
    {
        self.mailbox[s as usize]
    }

    /// What a move moves.
    pub fn moved_piece(&self, mv: Move) -> (r: Piece)
        ensures
            r == self.at(mv.source()),
    {
        self.piece_on(mv.from())
    }

    /// The squares of one side's pieces.
    pub fn colors(&self, color: Color) -> (r: Bitboard)
        ensures
            forall|s: int| #[trigger] r.has(s) == (0 <= s < 64 && self.at(s).has_color(color)),
    {
        let mut r = Bitboard::empty();
        let mut t: u8 = 0;
        while t < 64
            invariant
                t <= 64,
                forall|s: int|
                    #[trigger] r.has(s) == (0 <= s < t && self.at(s).has_color(color)),
            decreases 64 - t,
        {
            if self.piece_on(t).is_color(color) {
                r = r.with(t);
            }
            t = t + 1;
        }
        r
    }

    /// The squares of all pieces of a type.
    pub fn pieces(&self, kind: PieceType) -> (r: Bitboard)
        requires
            kind != PieceType::Absent,
        ensures
            forall|s: int| #[trigger] r.has(s) == (0 <= s < 64 && self.at(s).kind() == kind),
    {
        let mut r = Bitboard::empty();
        let mut t: u8 = 0;
        while t < 64
            invariant
                t <= 64,
                forall|s: int| #[trigger] r.has(s) == (0 <= s < t && self.at(s).kind() == kind),
            decreases 64 - t,
        {
            if self.piece_on(t).piece_type() == kind {
                r = r.with(t);
            }
            t = t + 1;
        }
        r
    }

    /// The squares of one side's pieces of a type.
    pub fn colored_pieces(&self, color: Color, kind: PieceType) -> (r: Bitboard)
        requires
            kind != PieceType::Absent,
        ensures
            forall|s: int|
                #[trigger] r.has(s) == (0 <= s < 64 && self.at(s) == Piece::Of(color, kind)),
    {
        self.colors(color).both(self.pieces(kind))
    }

    /// The squares of all pieces.
    pub fn occupancies(&self) -> (r: Bitboard)
        ensures
            r.members() == self.occupied(),
    {
        let r = self.colors(Color::White).union(self.colors(Color::Black));
        assert(r.members() =~= self.occupied());
        r
    }

    /// The square of a side's king.
    pub fn king_square(&self, color: Color) -> (r: u8)
        requires
            self.wf(),
        ensures
            r < 64,
            r == self.king(color),
            self.king_at(color, r as int),
    {
        let ghost k = self.king(color);
        let mut t: u8 = 0;
        assert(self.king_at(color, k)) by {
            match color {
                Color::White => {},
                Color::Black => {},
            }
        }
        while self.piece_on(t) != Piece::Of(color, PieceType::King)
            invariant
                0 <= t <= k < 64,
                self.king_at(color, k),
            decreases k - t,
        {
            t = t + 1;
        }
        assert(self.king_at(color, t as int));
        t
    }

    /// The squares that the opponent attacks with a type of piece.
    pub fn piece_threats(&self, kind: PieceType) -> (r: Bitboard)
        requires
            kind != PieceType::Absent,
        ensures
            r == self.threats_by@[kind.number()],
    {
        self.threats_by[kind.index()]
    }

    /// The squares from which a type of piece would give check.
    pub fn checking_squares(&self, kind: PieceType) -> (r: Bitboard)
        requires
            kind != PieceType::Absent,
        ensures
            r == self.checks_by@[kind.number()],
    {
        self.checks_by[kind.index()]
    }

    /// Whether a move is legal here.
    pub fn is_legal(&self, mv: Move) -> (r: bool)
        ensures
            r == self.legal(mv),
    {
        let mut i: usize = 0;
        while i < self.legal_moves.len()
            invariant
                i <= self.legal_moves@.len(),
                forall|j: int| 0 <= j < i ==> self.legal_moves@[j] != mv,
            decreases self.legal_moves@.len() - i,
        {
            if self.legal_moves[i] == mv {
                return true;
            }
            i = i + 1;
        }
        false
    }

    /// Whether the exchange that a move starts is worth at least `threshold`.
    pub fn see(&self, mv: Move, threshold: i32) -> (r: bool)
        ensures
            r == self.worth(mv, threshold as int),
    {
        let ghost wanted = |x: Exchange| x.mv == mv;
        let mut i: usize = 0;
        while i < self.exchanges.len()
            invariant
                i <= self.exchanges@.len(),
                wanted == (|x: Exchange| x.mv == mv),
                find(self.exchanges@, wanted, 0) == find(self.exchanges@, wanted, i as int),
            decreases self.exchanges@.len() - i,
        {
            if self.exchanges[i].mv == mv {
                return self.exchanges[i].gain >= threshold;
            }
            i = i + 1;
        }
        false
    }

    /// Appends moves to a list, without a score yet.
    fn append(moves: &Vec<Move>, list: &mut Vec<MoveEntry>)
        ensures
            final(list)@ == old(list)@ + unscored(moves@),
    {
        let ghost before = list@;
        let mut i: usize = 0;
        while i < moves.len()
            invariant
                i <= moves@.len(),
                list@ == before + unscored(moves@.take(i as int)),
            decreases moves@.len() - i,
        {
            list.push(MoveEntry { mv: moves[i], score: 0 });
            i = i + 1;
            assert(list@ =~= before + unscored(moves@.take(i as int)));
        }
        assert(moves@.take(i as int) =~= moves@);
    }

    /// Appends the captures and promotions.
    pub fn append_noisy_moves(&self, list: &mut Vec<MoveEntry>)
        ensures
            final(list)@ == old(list)@ + unscored(self.noisy_moves@),
    {
        Board::append(&self.noisy_moves, list);
    }

    /// Appends the other moves.
    pub fn append_quiet_moves(&self, list: &mut Vec<MoveEntry>)
        ensures
            final(list)@ == old(list)@ + unscored(self.quiet_moves@),
    {
        Board::append(&self.quiet_moves, list);
    }
}

/// Moves as they are when they have just been generated.
pub open spec fn unscored(moves: Seq<Move>) -> Seq<MoveEntry> {
    moves.map_values(|mv: Move| (MoveEntry { mv, score: 0 }))
}

/// A search finds the first item that is wanted, and nothing only where none is.
pub proof fn find_is_first<T>(items: Seq<T>, wanted: spec_fn(T) -> bool, i: int)
    requires
        0 <= i <= items.len(),
    ensures
        match find(items, wanted, i) {
            Some(x) => exists|k: int|
                i <= k < items.len() && x == #[trigger] items[k] && wanted(x) && forall|j: int|
                    i <= j < k ==> !wanted(#[trigger] items[j]),
            None => forall|j: int| i <= j < items.len() ==> !wanted(#[trigger] items[j]),
        },
    decreases items.len() - i,
{
    if i < items.len() && !wanted(items[i]) {
        find_is_first(items, wanted, i + 1);
        match find(items, wanted, i + 1) {
            Some(x) => {
                let k = choose|k: int|
                    i + 1 <= k < items.len() && x == #[trigger] items[k] && wanted(x) && forall|
                        j: int,
                    |
                        i + 1 <= j < k ==> !wanted(#[trigger] items[j]);
                assert(x == items[k]);
            },
            None => {},
        }
    }
}

/// The first item that is wanted is what a search finds.
pub proof fn the_first_is_found<T>(items: Seq<T>, wanted: spec_fn(T) -> bool, k: int)
    requires
        0 <= k < items.len(),
        wanted(items[k]),
        forall|j: int| 0 <= j < k ==> !wanted(#[trigger] items[j]),
    ensures
        find(items, wanted, 0) == Some(items[k]),
{
    find_is_first(items, wanted, 0);
    let x = find(items, wanted, 0)->0;
    assert(find(items, wanted, 0) is Some);
    let n = choose|n: int|
        0 <= n < items.len() && x == #[trigger] items[n] && wanted(x) && forall|j: int|
            0 <= j < n ==> !wanted(#[trigger] items[j]);
    assert(wanted(items[n]));
    assert(n == k);
}

/// Whether an exchange is the first that is listed for a move.
pub open spec fn first_exchange(board: Board, mv: Move, i: int) -> bool {
    &&& 0 <= i < board.exchanges@.len()
    &&& board.exchanges@[i].mv == mv
    &&& forall|j: int| 0 <= j < i ==> (#[trigger] board.exchanges@[j]).mv != mv
}

/// An exchange is worth a threshold exactly where the gain that is listed for its move is no
/// less; where none is listed, it is worth nothing at all.
pub proof fn an_exchange_is_worth_its_gain(board: Board, mv: Move, threshold: int)
    ensures
        forall|i: int| #[trigger]
            first_exchange(board, mv, i) ==> board.worth(mv, threshold) == (
            board.exchanges@[i].gain >= threshold),
        (forall|i: int| 0 <= i < board.exchanges@.len() ==> (#[trigger] board.exchanges@[i]).mv != mv)
            ==> !board.worth(mv, threshold),
{
    let wanted = |x: Exchange| x.mv == mv;
    assert forall|i: int| #[trigger] first_exchange(board, mv, i) implies board.worth(mv, threshold)
        == (board.exchanges@[i].gain >= threshold) by {
        the_first_is_found(board.exchanges@, wanted, i);
    }
    find_is_first(board.exchanges@, wanted, 0);
}

/// A move is legal exactly where it is one of the legal moves, and a square is occupied exactly
/// where a piece of one of the sides stands on it.
pub proof fn the_board_lists_what_it_holds(board: Board, mv: Move, s: int)
    ensures
        board.legal(mv) == exists|i: int|
            0 <= i < board.legal_moves@.len() && #[trigger] board.legal_moves@[i] == mv,
        0 <= s < 64 ==> board.occupied()(s) == (board.mailbox@[s].has_color(Color::White)
            || board.mailbox@[s].has_color(Color::Black)),
        !(0 <= s < 64) ==> !board.occupied()(s),
{
    if 0 <= s < 64 {
        match board.mailbox@[s] {
            Piece::Of(c, _) => match c {
                Color::White => {},
                Color::Black => {},
            },
            Piece::Empty => {},
        }
    }
}

/// In a position with one king on each side, the king's square is the one that the king is on.
pub proof fn the_king_is_where_it_stands(board: Board, color: Color, s: int)
    requires
        board.wf(),
        0 <= s < 64,
    ensures
        (s == board.king(color)) == (board.mailbox@[s] == Piece::Of(color, PieceType::King)),
        0 <= board.king(color) < 64,
{
    let k = board.king(color);
    assert(board.king_at(color, k)) by {
        match color {
            Color::White => {},
            Color::Black => {},
        }
    }
    if board.mailbox@[s] == Piece::Of(color, PieceType::King) {
        assert(board.king_at(color, s));
    }
}

/// A position with one king on each side and no other has one king on each side.
pub proof fn one_king_on_each_side_is_enough(board: Board, white: int, black: int)
    requires
        0 <= white < 64,
        0 <= black < 64,
        forall|s: int|
            0 <= s < 64 ==> ((#[trigger] board.mailbox@[s]) == Piece::Of(
                Color::White,
                PieceType::King,
            ) <==> s == white),
        forall|s: int|
            0 <= s < 64 ==> ((#[trigger] board.mailbox@[s]) == Piece::Of(
                Color::Black,
                PieceType::King,
            ) <==> s == black),
    ensures
        board.wf(),
{
    assert(board.king_at(Color::White, white));
    assert(board.king_at(Color::Black, black));
    assert forall|c: Color, s: int, t: int| #[trigger] board.king_at(c, s)
        && #[trigger] board.king_at(c, t) implies s == t by {
        match c {
            Color::White => {},
            Color::Black => {},
        }
    }
}

/// Generated moves are in the list in their order, and each counts nothing yet.
pub proof fn generated_moves_keep_their_order(moves: Seq<Move>, i: int)
    requires
        0 <= i < moves.len(),
    ensures
        unscored(moves).len() == moves.len(),
        unscored(moves)[i].mv == moves[i],
        unscored(moves)[i].score == 0,
{
}

} // verus!
