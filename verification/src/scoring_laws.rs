//! What the scores of moves count, term by term, read off the board and the histories.
use crate::board::{the_king_is_where_it_stands, Board};
use crate::lookup::{
    bishop_hits, king_hits, knight_hits, pawn_hits, rook_hits, steps_have_their_length,
};
use crate::scoring::{
    any_enemy, capture_history, enemy, features, fits, king_ring_ortho, knight_prey, loose_bishop,
    loose_rook, noisy_fits, noisy_score, offense, positional_terms, quiet_fits, quiet_score,
    quiet_terms, sum, the_center_counts_by_weight, threatened,
};
use crate::thread::ThreadData;
use crate::types::{Color, Move, Piece, PieceType};
use vstd::prelude::*;

verus! {

// Captures and promotions

/// Where a type of piece stands in the tables of values.
pub open spec fn place(piece: Piece) -> int {
    match piece {
        Piece::Of(_, PieceType::Pawn) => 0,
        Piece::Of(_, PieceType::Knight) => 1,
        Piece::Of(_, PieceType::Bishop) => 2,
        Piece::Of(_, PieceType::Rook) => 3,
        Piece::Of(_, PieceType::Queen) => 4,
        Piece::Of(_, PieceType::King) => 5,
        _ => 6,
    }
}

/// In check a capture counts by the piece that makes it alone: 10000 for a pawn, and 1000 less
/// for each type above it.
pub proof fn in_check_the_mover_counts(td: ThreadData, mv: Move)
    requires
        td.board.in_check,
    ensures
        noisy_score(td, mv) == 10000 - 1000 * place(td.board.mailbox@[mv.bits as int % 64]),
        noisy_fits(td, mv),
{
}

/// Out of check a capture counts sixteen times the value of what stands on the square it enters,
/// or of a pawn where it captures in passing, and what has been learned of it; and a new queen
/// counts 4000 more, wherever it is made and whichever side makes it.
pub proof fn out_of_check_the_catch_counts(td: ThreadData, mv: Move)
    requires
        !td.board.in_check,
    ensures
        ({
            let from = mv.bits as int % 64;
            let to = mv.bits as int / 64 % 64;
            let kind = mv.bits as int / 4096;
            let mover = td.board.mailbox@[from];
            let there = td.board.mailbox@[to];
            let catch = if kind == 5 {
                PieceType::Pawn
            } else {
                there.kind()
            };
            let value = 16 * td.params.piece_values@[if kind == 5 {
                0
            } else {
                place(there)
            }];
            let learned = td.noisy_history.value(td.board.all_threats, mover, to, catch);
            let queen: int = if kind == 11 || kind == 15 {
                4000
            } else {
                0
            };
            &&& noisy_score(td, mv) == value + learned + queen
            &&& noisy_fits(td, mv) == (i32::MIN <= value <= i32::MAX && i32::MIN <= value + learned
                <= i32::MAX && i32::MIN <= value + learned + queen <= i32::MAX)
        }),
{
}

/// Out of check a promotion to a queen scores exactly 4000 more than a promotion to another piece
/// on the same squares, for either side and whatever the squares; promotions to other pieces
/// score alike.
pub proof fn a_queen_is_worth_4000_more(td: ThreadData, queen: Move, other: Move)
    requires
        !td.board.in_check,
        queen.source() == other.source(),
        queen.target() == other.target(),
        queen.promotion(),
        other.promotion(),
        queen.promotes_to() == PieceType::Queen,
    ensures
        other.promotes_to() != PieceType::Queen ==> noisy_score(td, queen) == noisy_score(td, other)
            + 4000,
        other.promotes_to() == PieceType::Queen ==> noisy_score(td, queen) == noisy_score(td, other),
{
    out_of_check_the_catch_counts(td, queen);
    out_of_check_the_catch_counts(td, other);
}

/// A capture in passing scores as if the pawn stood on the square that is entered, where the same
/// has been learned of it.
pub proof fn in_passing_a_pawn_is_caught(td: ThreadData, td2: ThreadData, passing: Move, plain: Move)
    requires
        !td.board.in_check,
        !td2.board.in_check,
        passing.source() == plain.source(),
        passing.target() == plain.target(),
        passing.en_passant(),
        !plain.en_passant(),
        !plain.promotion(),
        td2.board.mailbox@[plain.target()].kind() == PieceType::Pawn,
        td.params.piece_values@ == td2.params.piece_values@,
        capture_history(td, passing) == capture_history(td2, plain),
    ensures
        noisy_score(td, passing) == noisy_score(td2, plain),
{
}

// Quiet moves

/// The sum of the first terms is what adding them up from the first on gives.
pub proof fn a_sum_adds_the_first_terms(terms: Seq<int>, n: int)
    requires
        0 <= n <= terms.len(),
    ensures
        sum(terms, n) == terms.take(n).fold_left(0int, |a: int, b: int| a + b),
    decreases n,
{
    let f = |a: int, b: int| a + b;
    reveal_with_fuel(Seq::fold_left, 2);
    if n > 0 {
        a_sum_adds_the_first_terms(terms, n - 1);
        assert(terms.take(n).drop_last() =~= terms.take(n - 1));
        assert(terms.take(n).last() == terms[n - 1]);
    } else {
        assert(terms.take(0).len() == 0);
    }
}

/// The score of a quiet move is the sum of its fifteen terms; it can be had exactly where there
/// is a piece to move, and the two weighted histories and all sums on the way fit in an `i32`.
pub proof fn the_terms_add_up(td: ThreadData, ply: isize, mv: Move)
    ensures
        ({
            let t = quiet_terms(td, ply, mv);
            let h = td.quiet_history.value(td.board.all_threats, td.board.side_to_move, mv);
            let c = td.continuation(ply, 1, mv);
            &&& t.len() == 15
            &&& quiet_score(td, ply, mv) == t[0] + t[1] + t[2] + t[3] + t[4] + t[5] + t[6] + t[7]
                + t[8] + t[9] + t[10] + t[11] + t[12] + t[13] + t[14]
            &&& quiet_fits(td, ply, mv) == {
                &&& td.board.mailbox@[mv.bits as int % 64].kind() != PieceType::Absent
                &&& i32::MIN <= 2048 * h <= i32::MAX
                &&& i32::MIN <= 1536 * c <= i32::MAX
                &&& forall|n: int|
                    1 <= n <= 15 ==> i32::MIN <= (#[trigger] t.take(n)).fold_left(
                        0int,
                        |a: int, b: int| a + b,
                    ) <= i32::MAX
            }
        }),
{
    let t = quiet_terms(td, ply, mv);
    reveal_with_fuel(sum, 16);
    assert forall|n: int| 1 <= n <= 15 implies #[trigger] sum(t, n) == t.take(n).fold_left(
        0int,
        |a: int, b: int| a + b,
    ) by {
        a_sum_adds_the_first_terms(t, n);
    }
    assert forall|n: int| 1 <= n <= 15 implies (#[trigger] t.take(n)).fold_left(
        0int,
        |a: int, b: int| a + b,
    ) == sum(t, n) by {
        a_sum_adds_the_first_terms(t, n);
    }
    if forall|n: int| 1 <= n <= 15 ==> i32::MIN <= (#[trigger] t.take(n)).fold_left(
        0int,
        |a: int, b: int| a + b,
    ) <= i32::MAX {
        assert forall|n: int| 1 <= n <= 15 implies fits(#[trigger] sum(t, n)) by {
            assert(t.take(n) == t.take(n));
        }
    }
}

/// What has been learned counts: the history of a quiet move twice, that of the last move's
/// continuation one and a half times, without what is left of the half, those of the
/// continuations two, four and six plies back once each, and a refutation 1200.
pub proof fn what_is_learned_counts(td: ThreadData, ply: isize, mv: Move)
    ensures
        ({
            let t = quiet_terms(td, ply, mv);
            let c = td.continuation(ply, 1, mv);
            &&& t[0] == 2 * td.quiet_history.value(
                td.board.all_threats,
                td.board.side_to_move,
                mv,
            )
            &&& c >= 0 ==> 0 <= 3 * c - 2 * t[1] <= 1
            &&& c <= 0 ==> 0 <= 2 * t[1] - 3 * c <= 1
            &&& t[2] == td.continuation(ply, 2, mv)
            &&& t[3] == td.continuation(ply, 4, mv)
            &&& t[4] == td.continuation(ply, 6, mv)
            &&& t[14] == (if td.counter(ply, mv) {
                1200int
            } else {
                0
            })
        }),
{
}

/// What a type of piece is worth in pawns, by its place in the tables; a king is worth more than
/// all others.
pub open spec fn pawns(n: int) -> int {
    if n == 0 {
        1
    } else if n == 1 || n == 2 {
        3
    } else if n == 3 {
        5
    } else if n == 4 {
        9
    } else {
        100
    }
}

/// Whether the opponent attacks a square with a type of piece that is worth less than another.
pub open spec fn lesser_attack(board: Board, kind: PieceType, s: int) -> bool {
    exists|n: int|
        0 <= n < 6 && pawns(n) < pawns(kind.number()) && (#[trigger] board.threats_by@[n]).has(s)
}

/// Whether a type of piece can be driven away: all but pawns and kings.
pub open spec fn can_be_driven_away(kind: PieceType) -> bool {
    kind == PieceType::Knight || kind == PieceType::Bishop || kind == PieceType::Rook || kind
        == PieceType::Queen
}

proof fn lemma_lesser(board: Board, kind: PieceType, s: int)
    requires
        can_be_driven_away(kind),
    ensures
        threatened(board, kind, s) == lesser_attack(board, kind, s),
{
    let t = board.threats_by@;
    assert(t[0].has(s) || !t[0].has(s));
    assert(t[1].has(s) || !t[1].has(s));
    assert(t[2].has(s) || !t[2].has(s));
    assert(t[3].has(s) || !t[3].has(s));
}

/// Lesser attackers count, on the square that is left and on the square that is entered alike:
/// for a knight or bishop pawns, for a rook also knights and bishops, and for a queen also rooks.
/// To enter an attacked square costs 7584, to leave one gains by the piece, and the two together
/// count 320 for each step of safety. Pawns and kings do not mind.
pub proof fn lesser_attackers_count(td: ThreadData, ply: isize, mv: Move, kind: PieceType)
    requires
        td.board.mailbox@[mv.source()].kind() == kind,
        kind != PieceType::Absent,
    ensures
        ({
            let t = quiet_terms(td, ply, mv);
            let by = td.board.threats_by@;
            let from = mv.source();
            let to = mv.target();
            let left = can_be_driven_away(kind) && lesser_attack(td.board, kind, from);
            let entered = can_be_driven_away(kind) && lesser_attack(td.board, kind, to);
            &&& t[5] == (if left {
                match kind {
                    PieceType::Knight => 7768int,
                    PieceType::Bishop => 8218,
                    PieceType::Rook => 13424,
                    _ => 20208,
                }
            } else {
                0
            })
            &&& t[7] == (if entered {
                -7584int
            } else {
                0
            })
            &&& t[13] == (if entered {
                -320int
            } else {
                640
            }) + (if left {
                320int
            } else {
                0
            })
            &&& kind == PieceType::Knight || kind == PieceType::Bishop ==> entered == by[0].has(to)
                && left == by[0].has(from)
            &&& kind == PieceType::Rook ==> entered == (by[0].has(to) || by[1].has(to)
                || by[2].has(to)) && left == (by[0].has(from) || by[1].has(from) || by[2].has(from))
            &&& kind == PieceType::Queen ==> entered == (by[0].has(to) || by[1].has(to)
                || by[2].has(to) || by[3].has(to)) && left == (by[0].has(from) || by[1].has(from)
                || by[2].has(from) || by[3].has(from))
        }),
{
    let f = features(td, mv);
    assert(quiet_terms(td, ply, mv)[5] == positional_terms(f)[0]);
    assert(quiet_terms(td, ply, mv)[7] == positional_terms(f)[2]);
    assert(quiet_terms(td, ply, mv)[13] == positional_terms(f)[8]);
    if can_be_driven_away(kind) {
        lemma_lesser(td.board, kind, mv.source());
        lemma_lesser(td.board, kind, mv.target());
    }
}

/// A square is judged alike by the move that enters it and by the move that leaves it again with
/// a piece of the same type: the one pays exactly where the other gains.
pub proof fn entering_and_leaving_agree(
    td: ThreadData,
    td2: ThreadData,
    ply: isize,
    enter: Move,
    leave: Move,
)
    requires
        enter.target() == leave.source(),
        td.board.mailbox@[enter.source()].kind() == td2.board.mailbox@[leave.source()].kind(),
        td.board.mailbox@[enter.source()].kind() != PieceType::Absent,
        td.board.threats_by@ == td2.board.threats_by@,
    ensures
        (quiet_terms(td, ply, enter)[7] < 0) == (quiet_terms(td2, ply, leave)[5] > 0),
{
    let kind = td.board.mailbox@[enter.source()].kind();
    lesser_attackers_count(td, ply, enter, kind);
    lesser_attackers_count(td2, ply, leave, kind);
}

/// A check counts 9325, from exactly the squares from which the piece gives check.
pub proof fn checks_count(td: ThreadData, ply: isize, mv: Move, kind: PieceType)
    requires
        td.board.mailbox@[mv.source()].kind() == kind,
        kind != PieceType::Absent,
    ensures
        quiet_terms(td, ply, mv)[6] == (if td.board.checks_by@[place(
            td.board.mailbox@[mv.source()],
        )].has(mv.target()) {
            9325int
        } else {
            0
        }),
{
    assert(quiet_terms(td, ply, mv)[6] == positional_terms(features(td, mv))[1]);
}

/// Whether a piece of the opponent of a type stands on a square.
pub open spec fn theirs(board: Board, s: int, kind: PieceType) -> bool {
    0 <= s < 64 && board.mailbox@[s] == (match board.side_to_move {
        Color::White => Piece::Of(Color::Black, kind),
        Color::Black => Piece::Of(Color::White, kind),
    })
}

/// Whether from a square a piece of a type attacks a piece of the opponent that is worth it.
pub open spec fn has_prey(board: Board, kind: PieceType, t: int) -> bool {
    exists|s: int| #[trigger] is_prey(board, kind, s, t)
}

/// Whether a piece on a square is worth the attack of a piece of a type from another: for a pawn
/// any piece one rank ahead and one file aside; for a knight a queen, a rook or an unprotected
/// bishop; for a bishop a rook; for a queen an unprotected bishop along a line or an unprotected
/// rook along a diagonal.
pub open spec fn is_prey(board: Board, kind: PieceType, s: int, t: int) -> bool {
    let protected = board.all_threats.has(s);
    match kind {
        PieceType::Pawn => 0 <= s < 64 && (exists|k: PieceType| #[trigger] theirs(board, s, k))
            && pawn_hits(board.side_to_move, t, s),
        PieceType::Knight => knight_hits(s, t) && (theirs(board, s, PieceType::Queen) || theirs(
            board,
            s,
            PieceType::Rook,
        ) || (theirs(board, s, PieceType::Bishop) && !protected)),
        PieceType::Bishop => bishop_hits(board.occupied(), s, t) && theirs(
            board,
            s,
            PieceType::Rook,
        ),
        PieceType::Queen => !protected && ((rook_hits(board.occupied(), s, t) && theirs(
            board,
            s,
            PieceType::Bishop,
        )) || (bishop_hits(board.occupied(), s, t) && theirs(board, s, PieceType::Rook))),
        _ => false,
    }
}

proof fn lemma_pawn_prey(board: Board, t: int)
    requires
        0 <= t < 64,
    ensures
        (exists|s: int|
            #[trigger] any_enemy(board, s) && pawn_hits(board.side_to_move.other(), s, t))
            == has_prey(board, PieceType::Pawn, t),
{
    assert forall|s: int| 0 <= s < 64 implies pawn_hits(board.side_to_move.other(), s, t)
        == #[trigger] pawn_hits(board.side_to_move, t, s) by {
        steps_have_their_length(s, t);
        steps_have_their_length(t, s);
        let a = t % 8 - s % 8;
        assert(a * a == (-a) * (-a)) by (nonlinear_arith);
        assert(s % 8 - t % 8 == -a);
        match board.side_to_move {
            Color::White => {},
            Color::Black => {},
        }
    }
    assert forall|s: int| #[trigger] any_enemy(board, s) == (exists|k: PieceType| #[trigger]
        theirs(board, s, k)) by {
        if any_enemy(board, s) {
            let k = board.mailbox@[s].kind();
            match board.side_to_move {
                Color::White => {},
                Color::Black => {},
            }
            assert(theirs(board, s, k));
        }
    }
    if exists|s: int| #[trigger] any_enemy(board, s) && pawn_hits(board.side_to_move.other(), s, t) {
        let s = choose|s: int| #[trigger]
            any_enemy(board, s) && pawn_hits(board.side_to_move.other(), s, t);
        assert(pawn_hits(board.side_to_move, t, s));
        assert(is_prey(board, PieceType::Pawn, s, t));
    }
    if has_prey(board, PieceType::Pawn, t) {
        let s = choose|s: int| #[trigger] is_prey(board, PieceType::Pawn, s, t);
        assert(any_enemy(board, s));
    }
}

proof fn lemma_piece_prey(board: Board, kind: PieceType, t: int)
    requires
        0 <= t < 64,
        kind == PieceType::Knight || kind == PieceType::Bishop || kind == PieceType::Queen,
    ensures
        offense(board, kind, t) == (!board.all_threats.has(t) && has_prey(board, kind, t)),
{
    assert forall|s: int, k: PieceType| #[trigger] theirs(board, s, k) == enemy(board, k, s) by {
        match board.side_to_move {
            Color::White => {},
            Color::Black => {},
        }
    }
    if offense(board, kind, t) {
        let s = if kind == PieceType::Knight {
            choose|s: int| #[trigger] knight_prey(board, s) && knight_hits(s, t)
        } else if kind == PieceType::Bishop {
            choose|s: int| #[trigger]
                enemy(board, PieceType::Rook, s) && bishop_hits(board.occupied(), s, t)
        } else if exists|s: int| #[trigger]
            loose_bishop(board, s) && rook_hits(board.occupied(), s, t) {
            choose|s: int| #[trigger] loose_bishop(board, s) && rook_hits(board.occupied(), s, t)
        } else {
            choose|s: int| #[trigger] loose_rook(board, s) && bishop_hits(board.occupied(), s, t)
        };
        assert(theirs(board, s, PieceType::Rook) == enemy(board, PieceType::Rook, s));
        assert(theirs(board, s, PieceType::Bishop) == enemy(board, PieceType::Bishop, s));
        assert(theirs(board, s, PieceType::Queen) == enemy(board, PieceType::Queen, s));
        assert(is_prey(board, kind, s, t));
    }
    if has_prey(board, kind, t) {
        let s = choose|s: int| #[trigger] is_prey(board, kind, s, t);
        assert(theirs(board, s, PieceType::Rook) == enemy(board, PieceType::Rook, s));
        assert(theirs(board, s, PieceType::Bishop) == enemy(board, PieceType::Bishop, s));
        assert(theirs(board, s, PieceType::Queen) == enemy(board, PieceType::Queen, s));
        if kind == PieceType::Knight {
            assert(knight_prey(board, s));
        } else if kind == PieceType::Queen {
            assert(loose_bishop(board, s) || loose_rook(board, s));
        }
    }
}

/// To attack something that is worth it from a square that the opponent does not attack counts
/// 6158; rooks and kings do not count for it.
pub proof fn safe_attacks_count(td: ThreadData, ply: isize, mv: Move, kind: PieceType)
    requires
        td.board.mailbox@[mv.source()].kind() == kind,
        kind != PieceType::Absent,
    ensures
        quiet_terms(td, ply, mv)[8] == (if !td.board.all_threats.has(mv.target()) && has_prey(
            td.board,
            kind,
            mv.target(),
        ) {
            6158int
        } else {
            0
        }),
{
    let to = mv.target();
    assert(quiet_terms(td, ply, mv)[8] == positional_terms(features(td, mv))[3]);
    match kind {
        PieceType::Pawn => lemma_pawn_prey(td.board, to),
        PieceType::Rook | PieceType::King | PieceType::Absent => {
            assert(!has_prey(td.board, kind, to));
        },
        _ => lemma_piece_prey(td.board, kind, to),
    }
}

/// Whether two squares are the same or next to each other.
pub open spec fn near(s: int, t: int) -> bool {
    -1 <= s % 8 - t % 8 <= 1 && -1 <= s / 8 - t / 8 <= 1
}

/// The opponent's king counts: 768 for coming next to it, as much less for going away, and 5000
/// for a rook on a square that the opponent does not attack, with a way to a square next to the
/// king.
pub proof fn their_king_counts(td: ThreadData, ply: isize, mv: Move, kind: PieceType, king: int)
    requires
        td.board.wf(),
        theirs(td.board, king, PieceType::King),
        td.board.mailbox@[mv.source()].kind() == kind,
        kind != PieceType::Absent,
    ensures
        ({
            let t = quiet_terms(td, ply, mv);
            let from = mv.source();
            let to = mv.target();
            &&& t[12] == (if near(to, king) {
                768int
            } else {
                0
            }) - (if near(from, king) {
                768int
            } else {
                0
            })
            &&& t[9] == (if kind == PieceType::Rook && !td.board.all_threats.has(to) && exists|s: int|
                0 <= s < 64 && s != king && near(s, king) && #[trigger] rook_hits(
                    td.board.occupied(),
                    s,
                    to,
                ) {
                5000int
            } else {
                0
            })
        }),
{
    let f = features(td, mv);
    let to = mv.target();
    let board = td.board;
    assert(quiet_terms(td, ply, mv)[12] == positional_terms(f)[7]);
    assert(quiet_terms(td, ply, mv)[9] == positional_terms(f)[4]);
    let them = board.side_to_move.other();
    match board.side_to_move {
        Color::White => {},
        Color::Black => {},
    }
    the_king_is_where_it_stands(board, them, king);
    assert(king == board.king(them));
    if king_ring_ortho(board, to) {
        let s = choose|s: int| #[trigger]
            king_hits(board.king(them), s) && rook_hits(board.occupied(), s, to);
        assert(rook_hits(board.occupied(), s, to));
    }
    if exists|s: int|
        0 <= s < 64 && s != king && near(s, king) && #[trigger] rook_hits(board.occupied(), s, to) {
        let s = choose|s: int|
            0 <= s < 64 && s != king && near(s, king) && #[trigger] rook_hits(
                board.occupied(),
                s,
                to,
            );
        assert(king_hits(board.king(them), s));
    }
}

/// A pawn next to its own king counts 4000 less for moving away while the king is at home.
pub proof fn the_wall_counts(td: ThreadData, ply: isize, mv: Move, king: int)
    requires
        td.board.wf(),
        0 <= king < 64,
        td.board.mailbox@[king] == Piece::Of(td.board.side_to_move, PieceType::King),
        td.board.mailbox@[mv.source()] != Piece::Empty,
    ensures
        quiet_terms(td, ply, mv)[10] == (if (match td.board.side_to_move {
            Color::White => td.params.home_rows@[0],
            Color::Black => td.params.home_rows@[1],
        }).has(king) && mv.source() != king && near(mv.source(), king)
            && td.board.mailbox@[mv.source()].kind() == PieceType::Pawn {
            -4000int
        } else {
            0
        }),
{
    assert(quiet_terms(td, ply, mv)[10] == positional_terms(features(td, mv))[5]);
    match td.board.side_to_move {
        Color::White => {},
        Color::Black => {},
    }
    the_king_is_where_it_stands(td.board, td.board.side_to_move, king);
}

/// The center counts 512 for each step up in weight: 3 on the four central squares, 1 on the
/// twelve around them, 0 elsewhere.
pub proof fn the_center_counts(td: ThreadData, ply: isize, mv: Move)
    ensures
        ({
            let w = |s: int|
                if (s % 8 == 3 || s % 8 == 4) && (s / 8 == 3 || s / 8 == 4) {
                    3int
                } else if 2 <= s % 8 <= 5 && 2 <= s / 8 <= 5 {
                    1
                } else {
                    0
                };
            quiet_terms(td, ply, mv)[11] == 512 * (w(mv.target()) - w(mv.source()))
        }),
{
    let back = Move {
        bits: (mv.target() + 64 * mv.source()) as u16,
    };
    assert(back.source() == mv.target() && back.target() == mv.source());
    the_center_counts_by_weight(td, ply, mv, td, ply, back);
}

} // verus!
