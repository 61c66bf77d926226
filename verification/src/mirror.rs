//! A position and its mirror image: the board upside down and the sides exchanged. What is said
//! of the one holds of the other, so neither side is scored differently.
use crate::board::the_king_is_where_it_stands;
use crate::lookup::{
    bishop_hits, file, king_hits, knight_hits, on_board, pawn_hits, rank, ray_hits, reaches,
    rook_hits, square,
};
use crate::scoring::{
    any_enemy, enemy, enemy_king, features, king_ring_ortho, knight_prey, loose_bishop, loose_rook,
    lemma_centers, noisy_fits, noisy_score, offense, quiet_score, quiet_terms,
};
use crate::thread::ThreadData;
use crate::types::{Color, Move, Piece, PieceType};
use vstd::prelude::*;

verus! {

/// The square in the same file, as far from the other end of the board.
#[verifier::opaque]
pub open spec fn flip(s: int) -> int {
    s % 8 + 8 * (7 - s / 8)
}

/// The same piece of the other side.
pub open spec fn swap(piece: Piece) -> Piece {
    match piece {
        Piece::Empty => Piece::Empty,
        Piece::Of(c, k) => Piece::Of(c.other(), k),
    }
}

/// Whether a position, with what is known of it but for the histories, is the mirror image of
/// another.
#[verifier::opaque]
pub open spec fn mirrored(a: ThreadData, b: ThreadData) -> bool {
    &&& b.board.side_to_move == a.board.side_to_move.other()
    &&& b.board.in_check == a.board.in_check
    &&& b.params.piece_values@ == a.params.piece_values@
    &&& forall|s: int|
        0 <= s < 64 ==> #[trigger] b.board.mailbox@[s] == swap(a.board.mailbox@[flip(s)])
    &&& forall|s: int|
        0 <= s < 64 ==> #[trigger] b.board.all_threats.has(s) == a.board.all_threats.has(flip(s))
    &&& forall|n: int, s: int|
        0 <= n < 6 && 0 <= s < 64 ==> (#[trigger] b.board.threats_by@[n].has(s))
            == a.board.threats_by@[n].has(flip(s))
    &&& forall|n: int, s: int|
        0 <= n < 6 && 0 <= s < 64 ==> (#[trigger] b.board.checks_by@[n].has(s))
            == a.board.checks_by@[n].has(flip(s))
    &&& forall|n: int, s: int|
        0 <= n < 2 && 0 <= s < 64 ==> (#[trigger] b.params.home_rows@[n].has(s))
            == a.params.home_rows@[1 - n].has(flip(s))
}

/// Whether a move is the mirror image of another.
pub open spec fn mirrored_move(a: Move, b: Move) -> bool {
    &&& b.source() == flip(a.source())
    &&& b.target() == flip(a.target())
    &&& b.kind_code() == a.kind_code()
}

/// In a mirror image the mirrored capture has the same score, where the same has been learned of
/// both.
pub proof fn mirrored_captures_score_alike(a: ThreadData, b: ThreadData, mv: Move, image: Move)
    requires
        mirrored(a, b),
        mirrored_move(mv, image),
        forall|k: PieceType| #[trigger]
            b.noisy_history.value(
                b.board.all_threats,
                swap(a.board.mailbox@[mv.source()]),
                image.target(),
                k,
            ) == a.noisy_history.value(
                a.board.all_threats,
                a.board.mailbox@[mv.source()],
                mv.target(),
                k,
            ),
    ensures
        noisy_score(a, mv) == noisy_score(b, image),
        noisy_fits(a, mv) == noisy_fits(b, image),
{
    lemma_at(a, b, mv.source());
    lemma_at(a, b, mv.target());
}

proof fn lemma_flip(s: int)
    requires
        0 <= s < 64,
    ensures
        0 <= flip(s) < 64,
        flip(flip(s)) == s,
        file(flip(s)) == file(s),
        rank(flip(s)) == 7 - rank(s),
        flip(s) == square(file(s), 7 - rank(s)),
{
    reveal(flip);
}

/// What stands on a square and what is known of it, in the mirror.
proof fn lemma_at(a: ThreadData, b: ThreadData, s: int)
    requires
        mirrored(a, b),
        0 <= s < 64,
    ensures
        0 <= flip(s) < 64,
        b.board.side_to_move == a.board.side_to_move.other(),
        b.board.in_check == a.board.in_check,
        b.params.piece_values@ == a.params.piece_values@,
        b.board.mailbox@[flip(s)] == swap(a.board.mailbox@[s]),
        b.board.all_threats.has(flip(s)) == a.board.all_threats.has(s),
        b.board.threats_by@[0].has(flip(s)) == a.board.threats_by@[0].has(s),
        b.board.threats_by@[1].has(flip(s)) == a.board.threats_by@[1].has(s),
        b.board.threats_by@[2].has(flip(s)) == a.board.threats_by@[2].has(s),
        b.board.threats_by@[3].has(flip(s)) == a.board.threats_by@[3].has(s),
        forall|n: int|
            0 <= n < 6 ==> (#[trigger] b.board.checks_by@[n]).has(flip(s))
                == a.board.checks_by@[n].has(s),
        b.params.home_rows@[0].has(flip(s)) == a.params.home_rows@[1].has(s),
        b.params.home_rows@[1].has(flip(s)) == a.params.home_rows@[0].has(s),
{
    reveal(mirrored);
    lemma_flip(s);
    let t = flip(s);
    assert(b.board.mailbox@[t] == swap(a.board.mailbox@[flip(t)]));
    assert(b.board.all_threats.has(t) == a.board.all_threats.has(flip(t)));
    assert(b.board.threats_by@[0].has(t) == a.board.threats_by@[0].has(flip(t)));
    assert(b.board.threats_by@[1].has(t) == a.board.threats_by@[1].has(flip(t)));
    assert(b.board.threats_by@[2].has(t) == a.board.threats_by@[2].has(flip(t)));
    assert(b.board.threats_by@[3].has(t) == a.board.threats_by@[3].has(flip(t)));
    assert forall|n: int| 0 <= n < 6 implies (#[trigger] b.board.checks_by@[n]).has(flip(s))
        == a.board.checks_by@[n].has(s) by {
        assert(b.board.checks_by@[n].has(t) == a.board.checks_by@[n].has(flip(t)));
    }
    assert(b.params.home_rows@[0].has(t) == a.params.home_rows@[1 - 0].has(flip(t)));
    assert(b.params.home_rows@[1].has(t) == a.params.home_rows@[1 - 1].has(flip(t)));
}

proof fn lemma_steps_flip(s: int, t: int)
    requires
        0 <= s < 64,
        0 <= t < 64,
    ensures
        king_hits(flip(s), flip(t)) == king_hits(s, t),
        knight_hits(flip(s), flip(t)) == knight_hits(s, t),
        pawn_hits(Color::White, flip(s), flip(t)) == pawn_hits(Color::Black, s, t),
        pawn_hits(Color::Black, flip(s), flip(t)) == pawn_hits(Color::White, s, t),
{
    lemma_flip(s);
    lemma_flip(t);
}

/// A ray in the mirror.
proof fn lemma_ray_flip(
    occ: spec_fn(int) -> bool,
    occ2: spec_fn(int) -> bool,
    s: int,
    df: int,
    dr: int,
    t: int,
)
    requires
        0 <= s < 64,
        -1 <= df <= 1,
        -1 <= dr <= 1,
        forall|u: int| 0 <= u < 64 ==> #[trigger] occ2(u) == occ(flip(u)),
        ray_hits(occ, s, df, dr, t),
    ensures
        0 <= t < 64,
        ray_hits(occ2, flip(s), df, -dr, flip(t)),
{
    let k = choose|k: int|
        #[trigger] reaches(occ, s, df, dr, k) && t == square(file(s) + k * df, rank(s) + k * dr);
    let f0 = file(s);
    let r0 = rank(s);
    lemma_flip(s);
    lemma_flip_square(f0 + k * df, r0 + k * dr);
    assert(k * -dr == -(k * dr)) by (nonlinear_arith);
    assert forall|j: int| 1 <= j < k implies !(#[trigger] occ2(
        square(file(flip(s)) + j * df, rank(flip(s)) + j * -dr),
    )) by {
        assert(j * -dr == -(j * dr)) by (nonlinear_arith);
        lemma_convex(f0, df, j, k);
        lemma_convex(r0, dr, j, k);
        lemma_flip_square(f0 + j * df, r0 + j * dr);
        lemma_flip_square(f0 + j * df, 7 - (r0 + j * dr));
        let u = square(f0 + j * df, r0 + j * dr);
        assert(!occ(u));
        assert(occ2(flip(u)) == occ(flip(flip(u))));
    }
    assert(reaches(occ2, flip(s), df, -dr, k));
}

proof fn lemma_flip_square(f: int, r: int)
    requires
        on_board(f, r),
    ensures
        0 <= square(f, r) < 64,
        flip(square(f, r)) == square(f, 7 - r),
{
    reveal(flip);
}

/// On the way between two places on the board one stays on it.
proof fn lemma_convex(a: int, d: int, j: int, k: int)
    requires
        0 <= a < 8,
        0 <= a + k * d < 8,
        1 <= j < k,
        -1 <= d <= 1,
    ensures
        0 <= a + j * d < 8,
{
    assert(d == 1 ==> j * d == j && k * d == k) by (nonlinear_arith);
    assert(d == -1 ==> j * d == -j && k * d == -k) by (nonlinear_arith);
    assert(d == 0 ==> j * d == 0) by (nonlinear_arith);
}

proof fn lemma_lines_there(occ: spec_fn(int) -> bool, occ2: spec_fn(int) -> bool, s: int, t: int)
    requires
        0 <= s < 64,
        forall|u: int| 0 <= u < 64 ==> #[trigger] occ2(u) == occ(flip(u)),
    ensures
        rook_hits(occ, s, t) ==> 0 <= t < 64 && rook_hits(occ2, flip(s), flip(t)),
        bishop_hits(occ, s, t) ==> 0 <= t < 64 && bishop_hits(occ2, flip(s), flip(t)),
{
    assert forall|df: int, dr: int| -1 <= df <= 1 && -1 <= dr <= 1 && #[trigger] ray_hits(
        occ,
        s,
        df,
        dr,
        t,
    ) implies 0 <= t < 64 && ray_hits(occ2, flip(s), df, -dr, flip(t)) by {
        lemma_ray_flip(occ, occ2, s, df, dr, t);
    }
}

proof fn lemma_lines_flip(occ: spec_fn(int) -> bool, occ2: spec_fn(int) -> bool, s: int, t: int)
    requires
        0 <= s < 64,
        0 <= t < 64,
        forall|u: int| 0 <= u < 64 ==> #[trigger] occ2(u) == occ(flip(u)),
    ensures
        rook_hits(occ2, flip(s), flip(t)) == rook_hits(occ, s, t),
        bishop_hits(occ2, flip(s), flip(t)) == bishop_hits(occ, s, t),
{
    lemma_flip(s);
    lemma_flip(t);
    lemma_lines_there(occ, occ2, s, t);
    assert forall|u: int| 0 <= u < 64 implies #[trigger] occ(u) == occ2(flip(u)) by {
        lemma_flip(u);
        assert(occ2(flip(u)) == occ(flip(flip(u))));
    }
    lemma_lines_there(occ2, occ, flip(s), flip(t));
}

/// A mirror image of a mirror image.
proof fn lemma_mirrored_back(a: ThreadData, b: ThreadData)
    requires
        mirrored(a, b),
    ensures
        mirrored(b, a),
{
    assert forall|s: int| 0 <= s < 64 implies #[trigger] a.board.mailbox@[s] == swap(
        b.board.mailbox@[flip(s)],
    ) by {
        lemma_at(a, b, s);
    }
    assert forall|s: int| 0 <= s < 64 implies #[trigger] a.board.all_threats.has(s)
        == b.board.all_threats.has(flip(s)) by {
        lemma_at(a, b, s);
    }
    assert forall|n: int, s: int| 0 <= n < 6 && 0 <= s < 64 implies (
    #[trigger] a.board.threats_by@[n].has(s)) == b.board.threats_by@[n].has(flip(s)) by {
        lemma_flip(s);
        assert(b.board.threats_by@[n].has(flip(s)) == a.board.threats_by@[n].has(flip(flip(s))))
            by {
            reveal(mirrored);
        }
    }
    assert forall|n: int, s: int| 0 <= n < 6 && 0 <= s < 64 implies (
    #[trigger] a.board.checks_by@[n].has(s)) == b.board.checks_by@[n].has(flip(s)) by {
        lemma_at(a, b, s);
        assert(b.board.checks_by@[n].has(flip(s)) == a.board.checks_by@[n].has(s));
    }
    assert forall|n: int, s: int| 0 <= n < 2 && 0 <= s < 64 implies (
    #[trigger] a.params.home_rows@[n].has(s)) == b.params.home_rows@[1 - n].has(flip(s)) by {
        lemma_at(a, b, s);
        assert(n == 0 || n == 1);
    }
    lemma_at(a, b, 0);
    assert(mirrored(b, a)) by {
        reveal(mirrored);
    }
}

proof fn lemma_occupied_flip(a: ThreadData, b: ThreadData)
    requires
        mirrored(a, b),
    ensures
        forall|u: int|
            0 <= u < 64 ==> #[trigger] b.board.occupied()(u) == a.board.occupied()(flip(u)),
{
    assert forall|u: int| 0 <= u < 64 implies #[trigger] b.board.occupied()(u)
        == a.board.occupied()(flip(u)) by {
        lemma_flip(u);
        lemma_at(a, b, flip(u));
    }
}

proof fn lemma_kings_flip(a: ThreadData, b: ThreadData, c: Color)
    requires
        mirrored(a, b),
        a.board.wf(),
        b.board.wf(),
    ensures
        b.board.king(c.other()) == flip(a.board.king(c)),
        0 <= a.board.king(c) < 64,
{
    let k = a.board.king(c);
    the_king_is_where_it_stands(a.board, c, 0);
    the_king_is_where_it_stands(a.board, c, k);
    lemma_at(a, b, k);
    the_king_is_where_it_stands(b.board, c.other(), flip(k));
}

/// One direction of what holds of safe attacks in the mirror.
proof fn lemma_offense_there(a: ThreadData, b: ThreadData, kind: PieceType, t: int)
    requires
        mirrored(a, b),
        0 <= t < 64,
        offense(a.board, kind, t),
    ensures
        offense(b.board, kind, flip(t)),
{
    let them = a.board.side_to_move.other();
    let occ = a.board.occupied();
    let occ2 = b.board.occupied();
    lemma_at(a, b, t);
    lemma_occupied_flip(a, b);
    let s = match kind {
        PieceType::Pawn => choose|s: int| #[trigger]
            any_enemy(a.board, s) && pawn_hits(them, s, t),
        PieceType::Knight => choose|s: int| #[trigger] knight_prey(a.board, s) && knight_hits(s, t),
        PieceType::Bishop => choose|s: int| #[trigger]
            enemy(a.board, PieceType::Rook, s) && bishop_hits(occ, s, t),
        _ => if exists|s: int| #[trigger] loose_bishop(a.board, s) && rook_hits(occ, s, t) {
            choose|s: int| #[trigger] loose_bishop(a.board, s) && rook_hits(occ, s, t)
        } else {
            choose|s: int| #[trigger] loose_rook(a.board, s) && bishop_hits(occ, s, t)
        },
    };
    assert(0 <= s < 64);
    lemma_at(a, b, s);
    lemma_steps_flip(s, t);
    lemma_lines_flip(occ, occ2, s, t);
    match kind {
        PieceType::Pawn => {
            assert(any_enemy(b.board, flip(s)));
            match them {
                Color::White => {},
                Color::Black => {},
            }
            assert(pawn_hits(b.board.side_to_move.other(), flip(s), flip(t)));
        },
        PieceType::Knight => {
            assert(knight_prey(b.board, flip(s)));
        },
        PieceType::Bishop => {
            assert(enemy(b.board, PieceType::Rook, flip(s)));
        },
        _ => {
            assert(loose_bishop(a.board, s) ==> loose_bishop(b.board, flip(s)));
            assert(loose_rook(a.board, s) ==> loose_rook(b.board, flip(s)));
        },
    }
}

proof fn lemma_ortho_there(a: ThreadData, b: ThreadData, t: int)
    requires
        mirrored(a, b),
        a.board.wf(),
        b.board.wf(),
        0 <= t < 64,
        king_ring_ortho(a.board, t),
    ensures
        king_ring_ortho(b.board, flip(t)),
{
    let them = a.board.side_to_move.other();
    lemma_at(a, b, t);
    lemma_occupied_flip(a, b);
    lemma_kings_flip(a, b, them);
    let s = choose|s: int| #[trigger]
        king_hits(enemy_king(a.board), s) && rook_hits(a.board.occupied(), s, t);
    lemma_steps_flip(enemy_king(a.board), s);
    lemma_lines_flip(a.board.occupied(), b.board.occupied(), s, t);
    assert(b.board.side_to_move.other() == them.other());
    assert(king_hits(enemy_king(b.board), flip(s)));
}

proof fn lemma_offense_flip(a: ThreadData, b: ThreadData, kind: PieceType, t: int)
    requires
        mirrored(a, b),
        a.board.wf(),
        b.board.wf(),
        0 <= t < 64,
    ensures
        offense(b.board, kind, flip(t)) == offense(a.board, kind, t),
        king_ring_ortho(b.board, flip(t)) == king_ring_ortho(a.board, t),
{
    lemma_flip(t);
    lemma_mirrored_back(a, b);
    if offense(a.board, kind, t) {
        lemma_offense_there(a, b, kind, t);
    }
    if offense(b.board, kind, flip(t)) {
        lemma_offense_there(b, a, kind, flip(t));
    }
    if king_ring_ortho(a.board, t) {
        lemma_ortho_there(a, b, t);
    }
    if king_ring_ortho(b.board, flip(t)) {
        lemma_ortho_there(b, a, flip(t));
    }
}

/// In a mirror image the mirrored quiet move has the same features, so it has the same score
/// where the same has been learned of both.
pub proof fn mirrored_quiet_moves_score_alike(
    a: ThreadData,
    b: ThreadData,
    ply: isize,
    mv: Move,
    image: Move,
)
    requires
        mirrored(a, b),
        mirrored_move(mv, image),
        a.board.wf(),
        b.board.wf(),
        a.board.mailbox@[mv.source()] != Piece::Empty,
        a.board.mailbox@[mv.source()].kind() != PieceType::Absent,
        b.quiet_history.value(b.board.all_threats, b.board.side_to_move, image)
            == a.quiet_history.value(a.board.all_threats, a.board.side_to_move, mv),
        forall|index: isize| #[trigger]
            b.continuation(ply, index, image) == a.continuation(ply, index, mv),
        b.counter(ply, image) == a.counter(ply, mv),
    ensures
        features(b, image) == features(a, mv),
        quiet_score(b, ply, image) == quiet_score(a, ply, mv),
{
    let from = mv.source();
    let to = mv.target();
    let us = a.board.side_to_move;
    let kind = a.board.mailbox@[from].kind();
    lemma_at(a, b, from);
    lemma_at(a, b, to);
    lemma_flip(from);
    lemma_flip(to);
    lemma_offense_flip(a, b, kind, to);
    lemma_kings_flip(a, b, us);
    lemma_kings_flip(a, b, us.other());
    let king = a.board.king(us);
    let their_king = a.board.king(us.other());
    lemma_at(a, b, king);
    lemma_steps_flip(king, from);
    lemma_steps_flip(their_king, from);
    lemma_steps_flip(their_king, to);
    lemma_flip(their_king);
    assert(us.other().other() == us);
    lemma_centers(from);
    lemma_centers(to);
    lemma_centers(flip(from));
    lemma_centers(flip(to));
    let f = features(a, mv);
    let g = features(b, image);
    assert(g.kind == kind);
    assert(g.threatened_from == f.threatened_from);
    assert(g.threatened_to == f.threatened_to);
    assert(g.gives_check == f.gives_check) by {
        assert(b.board.checks_by@[kind.number()].has(flip(to)) == a.board.checks_by@[kind.number()].has(
            to,
        ));
    }
    assert(g.leaves_wall == f.leaves_wall) by {
        match us {
            Color::White => {},
            Color::Black => {},
        }
    }
    assert(g.ring_to == f.ring_to && g.ring_from == f.ring_from) by {
        assert(flip(to) == flip(their_king) ==> to == their_king);
        assert(flip(from) == flip(their_king) ==> from == their_king);
    }
    assert(g == f);
    assert(quiet_terms(b, ply, image) =~= quiet_terms(a, ply, mv));
}

} // verus!
