//! The scores by which moves are ordered.
use crate::bitboard::Bitboard;
use crate::board::Board;
use crate::lookup::{
    bishop_attacks_from, bishop_hits, file, king_attacks, king_hits, knight_attacks_from,
    knight_hits, pawn_attacks_setwise, pawn_hits, rank, rook_attacks_from, rook_hits,
};
use crate::thread::ThreadData;
use crate::types::{Move, Piece, PieceType};
use vstd::prelude::*;

verus! {

/// Whether an integer fits in an `i32`.
pub open spec fn fits(x: int) -> bool {
    i32::MIN <= x <= i32::MAX
}

/// Division that rounds towards zero.
pub open spec fn quotient(x: int, d: int) -> int {
    if x >= 0 {
        x / d
    } else {
        -((-x) / d)
    }
}

/// 1 for true and 0 for false.
pub open spec fn unit(b: bool) -> int {
    if b {
        1
    } else {
        0
    }
}

// Captures and promotions

/// What a move captures.
pub open spec fn captured(board: Board, mv: Move) -> PieceType {
    if mv.en_passant() {
        PieceType::Pawn
    } else {
        board.at(mv.target()).kind()
    }
}

/// The value of what a move captures, with its weight.
pub open spec fn capture_value(td: ThreadData, mv: Move) -> int {
    16 * td.params.piece_values@[captured(td.board, mv).number()]
}

/// What has been learned of a capture.
pub open spec fn capture_history(td: ThreadData, mv: Move) -> int {
    td.noisy_history.value(
        td.board.all_threats,
        td.board.at(mv.source()),
        mv.target(),
        captured(td.board, mv),
    )
}

/// The score of a capture or promotion. In check the least valuable piece moves first;
/// otherwise it counts what is captured and what has been learned of it, and whether a pawn
/// becomes a queen.
pub open spec fn noisy_score(td: ThreadData, mv: Move) -> int {
    if td.board.in_check {
        10000 - 1000 * td.board.at(mv.source()).kind().number()
    } else {
        capture_value(td, mv) + capture_history(td, mv) + (if mv.promotion() && mv.promotes_to()
            == PieceType::Queen {
            4000int
        } else {
            0
        })
    }
}

/// Whether the score of a capture or promotion, and what it is made of, fits in an `i32`.
pub open spec fn noisy_fits(td: ThreadData, mv: Move) -> bool {
    td.board.in_check || {
        &&& fits(capture_value(td, mv))
        &&& fits(capture_value(td, mv) + capture_history(td, mv))
        &&& fits(noisy_score(td, mv))
    }
}

/// The score of a capture or promotion.
pub fn score_noisy_move(td: &ThreadData, mv: Move) -> (r: i32)
    requires
        noisy_fits(*td, mv),
    ensures
        r == noisy_score(*td, mv),
{
    if td.board.in_check {
        let kind = td.board.piece_on(mv.from()).piece_type();
        10000 - 1000 * (kind.index() as i32)
    } else {
        let taken = if mv.is_en_passant() {
            PieceType::Pawn
        } else {
            td.board.piece_on(mv.to()).piece_type()
        };
        let value: i32 = td.params.piece_values[taken.index()];
        let mut score: i32 = 16 * value + td.noisy_history.get(
            td.board.all_threats,
            td.board.moved_piece(mv),
            mv.to(),
            taken,
        );
        if mv.is_promotion() && mv.promo_piece_type() == PieceType::Queen {
            score = score + 4000;
        }
        score
    }
}

/// Whether the score of a capture or promotion, and what it is made of, fits in an `i32`, and
/// whether it could be negated.
pub fn can_score_noisy_move(td: &ThreadData, mv: Move) -> (r: (bool, bool))
    ensures
        r.0 == noisy_fits(*td, mv),
        r.1 == (noisy_score(*td, mv) > i32::MIN),
{
    if td.board.in_check {
        (true, true)
    } else {
        let taken = if mv.is_en_passant() {
            PieceType::Pawn
        } else {
            td.board.piece_on(mv.to()).piece_type()
        };
        let value: i64 = 16 * (td.params.piece_values[taken.index()] as i64);
        let learned: i64 = value + td.noisy_history.get(
            td.board.all_threats,
            td.board.moved_piece(mv),
            mv.to(),
            taken,
        ) as i64;
        let promoted = mv.is_promotion() && mv.promo_piece_type() == PieceType::Queen;
        let score: i64 = if promoted { learned + 4000 } else { learned };
        (in_range(value) && in_range(learned) && in_range(score), score > i32::MIN as i64)
    }
}

/// Whether an integer fits in an `i32`.
fn in_range(x: i64) -> (r: bool)
    ensures
        r == fits(x as int),
{
    i32::MIN as i64 <= x && x <= i32::MAX as i64
}

// Other moves

pub const CENTER: u64 = 0x0000_0018_1800_0000;

pub const EXTENDED_CENTER: u64 = 0x0000_3C3C_3C3C_0000;

pub open spec fn in_center(s: int) -> bool {
    (Bitboard { bits: CENTER }).has(s)
}

pub open spec fn in_extended_center(s: int) -> bool {
    (Bitboard { bits: EXTENDED_CENTER }).has(s)
}

/// What a piece of a type gains by leaving a square where a lesser piece attacks it.
pub open spec fn escape(kind: PieceType) -> int {
    match kind {
        PieceType::Knight => 7768,
        PieceType::Bishop => 8218,
        PieceType::Rook => 13424,
        PieceType::Queen => 20208,
        _ => 0,
    }
}

/// Whether the opponent attacks a square with a piece of a type.
pub open spec fn attacked_by(board: Board, kind: PieceType, s: int) -> bool {
    board.threats_by@[kind.number()].has(s)
}

/// Whether the opponent attacks a square with a piece worth less than one of a type.
pub open spec fn threatened(board: Board, kind: PieceType, s: int) -> bool {
    match kind {
        PieceType::Knight | PieceType::Bishop => attacked_by(board, PieceType::Pawn, s),
        PieceType::Rook => attacked_by(board, PieceType::Pawn, s) || attacked_by(
            board,
            PieceType::Knight,
            s,
        ) || attacked_by(board, PieceType::Bishop, s),
        PieceType::Queen => attacked_by(board, PieceType::Pawn, s) || attacked_by(
            board,
            PieceType::Knight,
            s,
        ) || attacked_by(board, PieceType::Bishop, s) || attacked_by(board, PieceType::Rook, s),
        _ => false,
    }
}

/// Whether an opponent's piece of a type stands on a square.
pub open spec fn enemy(board: Board, kind: PieceType, s: int) -> bool {
    0 <= s < 64 && board.at(s) == Piece::Of(board.side_to_move.other(), kind)
}

/// Whether a bishop that the opponent does not protect stands on a square.
pub open spec fn loose_bishop(board: Board, s: int) -> bool {
    enemy(board, PieceType::Bishop, s) && !board.all_threats.has(s)
}

/// Whether a rook that the opponent does not protect stands on a square.
pub open spec fn loose_rook(board: Board, s: int) -> bool {
    enemy(board, PieceType::Rook, s) && !board.all_threats.has(s)
}

/// Whether a piece worth a knight's attack stands on a square: a loose bishop, a rook or a queen.
pub open spec fn knight_prey(board: Board, s: int) -> bool {
    loose_bishop(board, s) || enemy(board, PieceType::Rook, s) || enemy(board, PieceType::Queen, s)
}

/// Whether a piece of the opponent stands on a square.
pub open spec fn any_enemy(board: Board, s: int) -> bool {
    0 <= s < 64 && board.at(s).has_color(board.side_to_move.other())
}

/// Whether a square is a safe one on which a piece of a type attacks a piece of the opponent
/// that is worth it.
pub open spec fn offense(board: Board, kind: PieceType, t: int) -> bool {
    !board.all_threats.has(t) && match kind {
        PieceType::Pawn => exists|s: int|
            #[trigger] any_enemy(board, s) && pawn_hits(board.side_to_move.other(), s, t),
        PieceType::Knight => exists|s: int| #[trigger] knight_prey(board, s) && knight_hits(s, t),
        PieceType::Bishop => exists|s: int| #[trigger]
            enemy(board, PieceType::Rook, s) && bishop_hits(board.occupied(), s, t),
        PieceType::Queen => {
            ||| exists|s: int| #[trigger]
                loose_bishop(board, s) && rook_hits(board.occupied(), s, t)
            ||| exists|s: int| #[trigger]
                loose_rook(board, s) && bishop_hits(board.occupied(), s, t)
        },
        _ => false,
    }
}

pub open spec fn enemy_king(board: Board) -> int {
    board.king(board.side_to_move.other())
}

/// Whether a square is the opponent's king's or next to it.
pub open spec fn king_ring(board: Board, s: int) -> bool {
    king_hits(enemy_king(board), s) || s == enemy_king(board)
}

/// Whether a square is a safe one from which a rook attacks a square next to the opponent's
/// king.
pub open spec fn king_ring_ortho(board: Board, t: int) -> bool {
    !board.all_threats.has(t) && exists|s: int| #[trigger]
        king_hits(enemy_king(board), s) && rook_hits(board.occupied(), s, t)
}

/// Whether a pawn in front of a king at home stands on a square.
pub open spec fn wall_pawn(td: ThreadData, s: int) -> bool {
    let king = td.board.king(td.board.side_to_move);
    &&& td.params.home_rows@[td.board.side_to_move.number()].has(king)
    &&& king_hits(king, s)
    &&& td.board.at(s).kind() == PieceType::Pawn
}

/// What the score of a quiet move counts of the position.
#[derive(Clone, Copy, Debug, PartialEq, Eq, Structural)]
pub struct QuietFeatures {
    pub kind: PieceType,
    /// Whether a lesser piece of the opponent attacks the square that the move leaves.
    pub threatened_from: bool,
    /// Whether a lesser piece of the opponent attacks the square that the move enters.
    pub threatened_to: bool,
    pub gives_check: bool,
    pub offense: bool,
    pub rook_on_ring: bool,
    pub leaves_wall: bool,
    pub center_to: bool,
    pub center_from: bool,
    pub extended_center_to: bool,
    pub extended_center_from: bool,
    pub ring_to: bool,
    pub ring_from: bool,
}

/// What the score of a quiet move counts of the position.
pub open spec fn features(td: ThreadData, mv: Move) -> QuietFeatures {
    let board = td.board;
    let kind = board.at(mv.source()).kind();
    let from = mv.source();
    let to = mv.target();
    QuietFeatures {
        kind,
        threatened_from: threatened(board, kind, from),
        threatened_to: threatened(board, kind, to),
        gives_check: board.checks_by@[kind.number()].has(to),
        offense: offense(board, kind, to),
        rook_on_ring: kind == PieceType::Rook && king_ring_ortho(board, to),
        leaves_wall: wall_pawn(td, from),
        center_to: in_center(to),
        center_from: in_center(from),
        extended_center_to: in_extended_center(to),
        extended_center_from: in_extended_center(from),
        ring_to: king_ring(board, to),
        ring_from: king_ring(board, from),
    }
}

/// How much nearer to the center a move brings a piece.
pub open spec fn center_delta(f: QuietFeatures) -> int {
    2 * unit(f.center_to) + unit(f.extended_center_to) - 2 * unit(f.center_from) - unit(
        f.extended_center_from,
    )
}

/// Whether a move enters (1) or leaves (-1) the ring of the opponent's king.
pub open spec fn king_pressure_delta(f: QuietFeatures) -> int {
    unit(f.ring_to) - unit(f.ring_from)
}

/// How much safer from lesser pieces a move makes a piece.
pub open spec fn stability_delta(f: QuietFeatures) -> int {
    2 * unit(!f.threatened_to) + unit(f.threatened_from) - unit(f.threatened_to)
}

/// What the histories add to the score of a quiet move.
pub open spec fn learned_terms(td: ThreadData, ply: isize, mv: Move) -> Seq<int> {
    seq![
        quotient(
            2048 * td.quiet_history.value(td.board.all_threats, td.board.side_to_move, mv),
            1024,
        ),
        quotient(1536 * td.continuation(ply, 1, mv), 1024),
        td.continuation(ply, 2, mv),
        td.continuation(ply, 4, mv),
        td.continuation(ply, 6, mv),
    ]
}

/// What the position adds to the score of a quiet move.
pub open spec fn positional_terms(f: QuietFeatures) -> Seq<int> {
    seq![
        escape(f.kind) * unit(f.threatened_from),
        9325 * unit(f.gives_check),
        -7584 * unit(f.threatened_to),
        6158 * unit(f.offense),
        5000 * unit(f.rook_on_ring),
        -4000 * unit(f.leaves_wall),
        512 * center_delta(f),
        768 * king_pressure_delta(f),
        320 * stability_delta(f),
    ]
}

/// What the score of a quiet move is the sum of.
pub open spec fn quiet_terms(td: ThreadData, ply: isize, mv: Move) -> Seq<int> {
    learned_terms(td, ply, mv) + positional_terms(features(td, mv)) + seq![
        1200 * unit(td.counter(ply, mv)),
    ]
}

/// The sum of the first `n` terms.
pub open spec fn sum(terms: Seq<int>, n: int) -> int
    decreases n,
{
    if n <= 0 {
        0
    } else {
        sum(terms, n - 1) + terms[n - 1]
    }
}

/// Machine integers as integers.
pub open spec fn as_ints(s: Seq<i32>) -> Seq<int> {
    s.map_values(|x: i32| x as int)
}

/// The score of a quiet move.
pub open spec fn quiet_score(td: ThreadData, ply: isize, mv: Move) -> int {
    sum(quiet_terms(td, ply, mv), 15)
}

/// Whether there is a piece to move, and the score of the move, term by term, fits in an `i32`.
pub open spec fn quiet_fits(td: ThreadData, ply: isize, mv: Move) -> bool {
    &&& td.board.at(mv.source()).kind() != PieceType::Absent
    &&& fits(2048 * td.quiet_history.value(td.board.all_threats, td.board.side_to_move, mv))
    &&& fits(1536 * td.continuation(ply, 1, mv))
    &&& forall|n: int| 1 <= n <= 15 ==> fits(#[trigger] sum(quiet_terms(td, ply, mv), n))
}

/// What the scores of all quiet moves of a position have in common.
pub struct QuietContext {
    king_ring: Bitboard,
    threatened: [Bitboard; 6],
    offense: [Bitboard; 6],
    king_ring_ortho: Bitboard,
    wall_pawns: Bitboard,
}

impl QuietContext {
    pub closed spec fn describes(self, td: ThreadData) -> bool {
        &&& forall|s: int| #[trigger] self.king_ring.has(s) == king_ring(td.board, s)
        &&& forall|k: PieceType, s: int|
            k != PieceType::Absent ==> #[trigger] self.threatened@[k.number()].has(s) == threatened(
                td.board,
                k,
                s,
            )
        &&& forall|k: PieceType, s: int|
            k != PieceType::Absent ==> #[trigger] self.offense@[k.number()].has(s) == (0 <= s < 64
                && offense(td.board, k, s))
        &&& forall|s: int|
            #[trigger] self.king_ring_ortho.has(s) == (0 <= s < 64 && king_ring_ortho(td.board, s))
        &&& forall|s: int| #[trigger] self.wall_pawns.has(s) == wall_pawn(td, s)
    }

    /// The squares that the opponent attacks with a piece worth less than one of each type.
    fn threatened_table(board: &Board) -> (r: [Bitboard; 6])
        ensures
            forall|k: PieceType, s: int|
                k != PieceType::Absent ==> #[trigger] r@[k.number()].has(s) == threatened(
                    *board,
                    k,
                    s,
                ),
    {
        let pawn = board.piece_threats(PieceType::Pawn);
        let minor = pawn.union(board.piece_threats(PieceType::Knight)).union(
            board.piece_threats(PieceType::Bishop),
        );
        let rook = minor.union(board.piece_threats(PieceType::Rook));
        let none = Bitboard::empty();
        let r = [none, pawn, pawn, minor, rook, none];
        assert forall|k: PieceType, s: int| k != PieceType::Absent implies #[trigger] r@[k.number()].has(s)
            == threatened(*board, k, s) by {
            match k {
                PieceType::Pawn => assert(r@[0] == none),
                PieceType::Knight => assert(r@[1] == pawn),
                PieceType::Bishop => assert(r@[2] == pawn),
                PieceType::Rook => assert(r@[3] == minor),
                PieceType::Queen => assert(r@[4] == rook),
                PieceType::King => assert(r@[5] == none),
                PieceType::Absent => {},
            }
        }
        r
    }

    /// The safe squares on which each type of piece attacks a piece that is worth it.
    fn offense_table(board: &Board) -> (r: [Bitboard; 6])
        ensures
            forall|k: PieceType, s: int|
                k != PieceType::Absent ==> #[trigger] r@[k.number()].has(s) == (0 <= s < 64
                    && offense(*board, k, s)),
    {
        let them = board.side_to_move.opposite();
        let threats = board.all_threats;
        let occupied = board.occupancies();
        let loose_bishops = board.colored_pieces(them, PieceType::Bishop).without(threats);
        let rooks = board.colored_pieces(them, PieceType::Rook);
        let queens = board.colored_pieces(them, PieceType::Queen);
        let loose_rooks = rooks.without(threats);
        let men = board.colors(them);
        let prey = loose_bishops.union(rooks).union(queens);
        let pawn = pawn_attacks_setwise(men, them).without(threats);
        let knight = knight_attacks_from(prey).without(threats);
        let bishop = bishop_attacks_from(rooks, occupied).without(threats);
        let straight = rook_attacks_from(loose_bishops, occupied);
        let diagonal = bishop_attacks_from(loose_rooks, occupied);
        let queen = straight.union(diagonal).without(threats);
        let none = Bitboard::empty();
        let r = [pawn, knight, bishop, none, queen, none];
        assert(forall|s: int|
            #![trigger men.has(s)]
            #![trigger any_enemy(*board, s)]
            men.has(s) == any_enemy(*board, s));
        assert(forall|s: int|
            #![trigger rooks.has(s)]
            #![trigger enemy(*board, PieceType::Rook, s)]
            rooks.has(s) == enemy(*board, PieceType::Rook, s));
        assert(forall|s: int|
            #![trigger loose_bishops.has(s)]
            #![trigger loose_bishop(*board, s)]
            loose_bishops.has(s) == loose_bishop(*board, s));
        assert(forall|s: int|
            #![trigger loose_rooks.has(s)]
            #![trigger loose_rook(*board, s)]
            loose_rooks.has(s) == loose_rook(*board, s));
        assert(forall|s: int|
            #![trigger prey.has(s)]
            #![trigger knight_prey(*board, s)]
            prey.has(s) == knight_prey(*board, s));
        assert forall|k: PieceType, t: int| k != PieceType::Absent implies #[trigger] r@[k.number()].has(t)
            == (0 <= t < 64 && offense(*board, k, t)) by {
            match k {
                PieceType::Pawn => {
                    assert(r@[0] == pawn);
                },
                PieceType::Knight => {
                    assert(r@[1] == knight);
                },
                PieceType::Bishop => {
                    assert(r@[2] == bishop);
                },
                PieceType::Rook => assert(r@[3] == none),
                PieceType::Queen => {
                    assert(r@[4] == queen);
                },
                PieceType::King => assert(r@[5] == none),
                PieceType::Absent => {},
            }
        }
        r
    }

    /// Looks a position over.
    pub fn new(td: &ThreadData) -> (r: Self)
        requires
            td.board.wf(),
        ensures
            r.describes(*td),
    {
        let board = &td.board;
        let us = board.side_to_move;
        let threats = board.all_threats;
        let their_king: u8 = board.king_square(us.opposite());
        let our_king: u8 = board.king_square(us);
        let ring = king_attacks(their_king);
        let king_ring = ring.with(their_king);
        let king_ring_ortho = rook_attacks_from(ring, board.occupancies()).without(threats);
        // don't move king wall pawns
        let home = td.params.home_rows[us.index()].contains(our_king);
        let wall_pawns = if home {
            king_attacks(our_king).both(board.pieces(PieceType::Pawn))
        } else {
            Bitboard::empty()
        };
        assert(forall|s: int|
            #![trigger ring.has(s)]
            #![trigger king_hits(enemy_king(td.board), s)]
            ring.has(s) == king_hits(enemy_king(td.board), s));
        QuietContext {
            king_ring,
            threatened: QuietContext::threatened_table(board),
            offense: QuietContext::offense_table(board),
            king_ring_ortho,
            wall_pawns,
        }
    }

    /// What the score of a quiet move counts of the position.
    pub fn features_of(&self, td: &ThreadData, mv: Move) -> (r: QuietFeatures)
        requires
            self.describes(*td),
            td.board.at(mv.source()).kind() != PieceType::Absent,
        ensures
            r == features(*td, mv),
    {
        let kind = td.board.piece_on(mv.from()).piece_type();
        let pt: usize = kind.index();
        let from: u8 = mv.from();
        let to: u8 = mv.to();
        let center = Bitboard { bits: CENTER };
        let extended = Bitboard { bits: EXTENDED_CENTER };
        QuietFeatures {
            kind,
            threatened_from: self.threatened[pt].contains(from),
            threatened_to: self.threatened[pt].contains(to),
            gives_check: td.board.checking_squares(kind).contains(to),
            offense: self.offense[pt].contains(to),
            rook_on_ring: kind == PieceType::Rook && self.king_ring_ortho.contains(to),
            leaves_wall: self.wall_pawns.contains(from),
            center_to: center.contains(to),
            center_from: center.contains(from),
            extended_center_to: extended.contains(to),
            extended_center_from: extended.contains(from),
            ring_to: self.king_ring.contains(to),
            ring_from: self.king_ring.contains(from),
        }
    }

    /// What the score of a quiet move is the sum of.
    fn terms_of(&self, td: &ThreadData, ply: isize, mv: Move) -> (r: [i32; 15])
        requires
            self.describes(*td),
            td.board.at(mv.source()).kind() != PieceType::Absent,
            fits(2048 * td.quiet_history.value(td.board.all_threats, td.board.side_to_move, mv)),
            fits(1536 * td.continuation(ply, 1, mv)),
        ensures
            as_ints(r@) == quiet_terms(*td, ply, mv),
    {
        let p = positional_terms_of(self.features_of(td, mv));
        let learned: i32 = 2048 * td.quiet_history.get(
            td.board.all_threats,
            td.board.side_to_move,
            mv,
        ) / 1024;
        let continued: i32 = 1536 * td.conthist(ply, 1, mv) / 1024;
        let counter_move_bonus: i32 = if td.is_counter_move(ply, mv) { 1200 } else { 0 };
        let all = [
            learned,
            continued,
            td.conthist(ply, 2, mv),
            td.conthist(ply, 4, mv),
            td.conthist(ply, 6, mv),
            p[0],
            p[1],
            p[2],
            p[3],
            p[4],
            p[5],
            p[6],
            p[7],
            p[8],
            counter_move_bonus,
        ];
        proof {
            assert(as_ints(p@) == positional_terms(features(*td, mv)));
            assert(p@.len() == 9);
            assert forall|n: int| 0 <= n < 9 implies positional_terms(features(*td, mv))[n]
                == #[trigger] p@[n] by {
                assert(as_ints(p@)[n] == p@[n]);
            }
            assert(as_ints(all@) =~= quiet_terms(*td, ply, mv));
        }
        all
    }

    /// The score of a quiet move.
    pub fn score_quiet_move(&self, td: &ThreadData, ply: isize, mv: Move) -> (r: i32)
        requires
            self.describes(*td),
            quiet_fits(*td, ply, mv),
        ensures
            r == quiet_score(*td, ply, mv),
    {
        total(&self.terms_of(td, ply, mv))
    }

    /// Whether there is a piece to move, and the score of the move, term by term, fits in an
    /// `i32`.
    pub fn can_score_quiet_move(&self, td: &ThreadData, ply: isize, mv: Move) -> (r: bool)
        requires
            self.describes(*td),
        ensures
            r == quiet_fits(*td, ply, mv),
    {
        let learned: i64 = 2048 * (td.quiet_history.get(
            td.board.all_threats,
            td.board.side_to_move,
            mv,
        ) as i64);
        let continued: i64 = 1536 * (td.conthist(ply, 1, mv) as i64);
        td.board.moved_piece(mv).piece_type() != PieceType::Absent && in_range(learned)
            && in_range(continued) && total_fits(&self.terms_of(td, ply, mv))
    }
}

/// A weight that counts only under a condition.
fn weighted(weight: i32, b: bool) -> (r: i32)
    ensures
        r == weight * unit(b),
{
    if b { weight } else { 0 }
}

fn center_delta_of(f: QuietFeatures) -> (r: i32)
    ensures
        r == center_delta(f),
        -3 <= r <= 3,
{
    2 * (f.center_to as i32) + (f.extended_center_to as i32) - 2 * (f.center_from as i32) - (
    f.extended_center_from as i32)
}

fn king_pressure_delta_of(f: QuietFeatures) -> (r: i32)
    ensures
        r == king_pressure_delta(f),
        -1 <= r <= 1,
{
    (f.ring_to as i32) - (f.ring_from as i32)
}

fn stability_delta_of(f: QuietFeatures) -> (r: i32)
    ensures
        r == stability_delta(f),
        -1 <= r <= 3,
{
    2 * ((!f.threatened_to) as i32) + (f.threatened_from as i32) - (f.threatened_to as i32)
}

fn escape_of(kind: PieceType) -> (r: i32)
    ensures
        r == escape(kind),
{
    match kind {
        PieceType::Knight => 7768,
        PieceType::Bishop => 8218,
        PieceType::Rook => 13424,
        PieceType::Queen => 20208,
        _ => 0,
    }
}

/// What the position adds to the score of a quiet move.
fn positional_terms_of(f: QuietFeatures) -> (r: [i32; 9])
    ensures
        as_ints(r@) == positional_terms(f),
{
    let r = [
        weighted(escape_of(f.kind), f.threatened_from),
        weighted(9325, f.gives_check),
        weighted(-7584, f.threatened_to),
        weighted(6158, f.offense),
        weighted(5000, f.rook_on_ring),
        weighted(-4000, f.leaves_wall),
        512 * center_delta_of(f),
        768 * king_pressure_delta_of(f),
        320 * stability_delta_of(f),
    ];
    assert(as_ints(r@) =~= positional_terms(f));
    r
}

/// The sum of the terms of a score, added up in their order.
fn total(terms: &[i32; 15]) -> (r: i32)
    requires
        forall|n: int| 1 <= n <= 15 ==> fits(#[trigger] sum(as_ints(terms@), n)),
    ensures
        r == sum(as_ints(terms@), 15),
{
    let ghost values = as_ints(terms@);
    let mut r: i32 = 0;
    let mut i: usize = 0;
    while i < 15
        invariant
            i <= 15,
            values == as_ints(terms@),
            forall|n: int| 1 <= n <= 15 ==> fits(#[trigger] sum(values, n)),
            r == sum(values, i as int),
        decreases 15 - i,
    {
        assert(fits(sum(values, i + 1)));
        r = r + terms[i];
        i = i + 1;
    }
    r
}

/// Whether the sums of the first terms of a score, up to all of them, fit in an `i32`.
fn total_fits(terms: &[i32; 15]) -> (r: bool)
    ensures
        r == forall|n: int| 1 <= n <= 15 ==> fits(#[trigger] sum(as_ints(terms@), n)),
{
    let ghost values = as_ints(terms@);
    let mut sum_so_far: i64 = 0;
    let mut i: usize = 0;
    while i < 15
        invariant
            i <= 15,
            values == as_ints(terms@),
            sum_so_far == sum(values, i as int),
            i > 0 ==> fits(sum_so_far as int),
            forall|n: int| 1 <= n <= i ==> fits(#[trigger] sum(values, n)),
        decreases 15 - i,
    {
        sum_so_far = sum_so_far + terms[i] as i64;
        i = i + 1;
        assert(sum_so_far == sum(values, i as int));
        if !in_range(sum_so_far) {
            return false;
        }
    }
    true
}

/// How much a square counts for the center: 3 in the center itself, 1 around it, 0 elsewhere.
pub open spec fn center_weight(s: int) -> int {
    if 3 <= file(s) <= 4 && 3 <= rank(s) <= 4 {
        3
    } else if 2 <= file(s) <= 5 && 2 <= rank(s) <= 5 {
        1
    } else {
        0
    }
}

/// The two centers, by files and ranks.
pub proof fn lemma_centers(s: int)
    requires
        0 <= s < 64,
    ensures
        in_center(s) == (3 <= file(s) <= 4 && 3 <= rank(s) <= 4),
        in_extended_center(s) == (2 <= file(s) <= 5 && 2 <= rank(s) <= 5),
{
    let k = s as u64;
    assert(((0x0000_0018_1800_0000u64 >> k) & 1 == 1) == (3 <= k % 8 && k % 8 <= 4 && 3 <= k / 8
        && k / 8 <= 4)) by (bit_vector)
        requires
            k < 64,
    ;
    assert(((0x0000_3C3C_3C3C_0000u64 >> k) & 1 == 1) == (2 <= k % 8 && k % 8 <= 5 && 2 <= k / 8
        && k / 8 <= 5)) by (bit_vector)
        requires
            k < 64,
    ;
}

/// The center counts by what the squares of a move weigh: 512 for each step up, and never more
/// than three steps. So a move between squares of the same weight counts nothing, and a move and
/// its reverse cancel, whatever the positions they are made in.
pub proof fn the_center_counts_by_weight(
    td: ThreadData,
    ply: isize,
    mv: Move,
    td2: ThreadData,
    ply2: isize,
    back: Move,
)
    requires
        back.source() == mv.target(),
        back.target() == mv.source(),
    ensures
        quiet_terms(td, ply, mv)[11] == 512 * (center_weight(mv.target()) - center_weight(
            mv.source(),
        )),
        -1536 <= quiet_terms(td, ply, mv)[11] <= 1536,
        center_weight(mv.source()) == center_weight(mv.target()) ==> quiet_terms(td, ply, mv)[11]
            == 0,
        quiet_terms(td, ply, mv)[11] + quiet_terms(td2, ply2, back)[11] == 0,
{
    lemma_centers(mv.source());
    lemma_centers(mv.target());
}

/// Scores of captures fit wherever the values of pieces and what has been learned of captures
/// stay within a hundred million.
pub proof fn moderate_captures_can_be_scored(td: ThreadData, mv: Move)
    requires
        -100_000_000 <= td.params.piece_values@[captured(td.board, mv).number()] <= 100_000_000,
        -100_000_000 <= capture_history(td, mv) <= 100_000_000,
    ensures
        noisy_fits(td, mv),
        noisy_score(td, mv) > i32::MIN,
{
}

/// The sum of terms within a bound.
proof fn lemma_sum_bound(terms: Seq<int>, bound: int, n: int)
    requires
        0 <= n <= terms.len(),
        forall|i: int| 0 <= i < terms.len() ==> -bound <= #[trigger] terms[i] <= bound,
    ensures
        -(n * bound) <= sum(terms, n) <= n * bound,
    decreases n,
{
    if n > 0 {
        lemma_sum_bound(terms, bound, n - 1);
        assert(n * bound == (n - 1) * bound + bound) by (nonlinear_arith);
    } else {
        assert(0 * bound == 0);
    }
}

/// The scores of quiet moves fit wherever what has been learned of them stays within a million.
pub proof fn moderate_quiet_moves_can_be_scored(td: ThreadData, ply: isize, mv: Move)
    requires
        td.board.at(mv.source()).kind() != PieceType::Absent,
        -1_000_000 <= td.quiet_history.value(td.board.all_threats, td.board.side_to_move, mv)
            <= 1_000_000,
        -1_000_000 <= td.continuation(ply, 1, mv) <= 1_000_000,
        -1_000_000 <= td.continuation(ply, 2, mv) <= 1_000_000,
        -1_000_000 <= td.continuation(ply, 4, mv) <= 1_000_000,
        -1_000_000 <= td.continuation(ply, 6, mv) <= 1_000_000,
    ensures
        quiet_fits(td, ply, mv),
{
    let terms = quiet_terms(td, ply, mv);
    let f = features(td, mv);
    let learned = learned_terms(td, ply, mv);
    let positional = positional_terms(f);
    assert(forall|i: int| 0 <= i < 5 ==> -3_000_000 <= #[trigger] learned[i] <= 3_000_000);
    assert(escape(f.kind) * unit(f.threatened_from) == if f.threatened_from {
        escape(f.kind)
    } else {
        0
    });
    assert(forall|i: int| 0 <= i < 9 ==> -3_000_000 <= #[trigger] positional[i] <= 3_000_000);
    assert forall|i: int| 0 <= i < terms.len() implies -3_000_000 <= #[trigger] terms[i]
        <= 3_000_000 by {
        if i < 5 {
            assert(terms[i] == learned[i]);
        } else if i < 14 {
            assert(terms[i] == positional[i - 5]);
        }
    }
    assert forall|n: int| 1 <= n <= 15 implies fits(#[trigger] sum(terms, n)) by {
        lemma_sum_bound(terms, 3_000_000, n);
    }
}

} // verus!
