use chess_search::bitboard::Bitboard;
use chess_search::board::Board;
use chess_search::scoring::{can_score_noisy_move, score_noisy_move, QuietContext};
use chess_search::thread::{
    ContinuationRecord, CounterRecord, NoisyHistory, NoisyRecord, Params, QuietHistory,
    QuietRecord, ThreadData,
};
use chess_search::types::{Color, Move, MoveKind, Piece, PieceType};

const NONE: Bitboard = Bitboard { bits: 0 };

fn set(squares: &[u8]) -> Bitboard {
    let mut r = Bitboard::empty();
    for s in squares {
        r = r.with(*s);
    }
    r
}

/// White to move, with the kings on e1 and e8 and more pieces.
fn thread(pieces: &[(u8, Color, PieceType)]) -> ThreadData {
    let mut mailbox = [Piece::Empty; 64];
    mailbox[4] = Piece::Of(Color::White, PieceType::King);
    mailbox[60] = Piece::Of(Color::Black, PieceType::King);
    for (s, color, kind) in pieces {
        mailbox[*s as usize] = Piece::Of(*color, *kind);
    }
    ThreadData {
        board: Board {
            mailbox,
            side_to_move: Color::White,
            in_check: false,
            all_threats: NONE,
            threats_by: [NONE; 6],
            checks_by: [NONE; 6],
            noisy_moves: vec![],
            quiet_moves: vec![],
            legal_moves: vec![],
            exchanges: vec![],
        },
        noisy_history: NoisyHistory { records: vec![] },
        quiet_history: QuietHistory { records: vec![] },
        continuations: vec![],
        counters: vec![],
        params: Params {
            piece_values: [100, 300, 310, 500, 900, 0, 0],
            home_rows: [Bitboard { bits: 0xFF }, Bitboard { bits: 0xFF << 56 }],
        },
        completed_depth: 0,
        nodes: 0,
        shared_nodes: 0,
    }
}

fn quiet(from: u8, to: u8) -> Move {
    Move::new(from, to, MoveKind::Normal)
}

fn score(td: &ThreadData, from: u8, to: u8) -> i32 {
    QuietContext::new(td).score_quiet_move(td, 3, quiet(from, to))
}

const W: Color = Color::White;
const B: Color = Color::Black;

#[test]
fn moves_hold_their_squares_and_kind() {
    let mv = Move::new(12, 28, MoveKind::DoublePush);
    assert_eq!((mv.from(), mv.to()), (12, 28));
    assert!(mv.is_present() && !mv.is_en_passant() && !mv.is_promotion());
    assert!(!Move::null().is_present());
    assert!(Move::new(33, 42, MoveKind::EnPassant).is_en_passant());
    let all = [
        (MoveKind::PromotionKnight, PieceType::Knight),
        (MoveKind::PromotionBishop, PieceType::Bishop),
        (MoveKind::PromotionRook, PieceType::Rook),
        (MoveKind::PromotionQueen, PieceType::Queen),
        (MoveKind::PromotionCaptureKnight, PieceType::Knight),
        (MoveKind::PromotionCaptureBishop, PieceType::Bishop),
        (MoveKind::PromotionCaptureRook, PieceType::Rook),
        (MoveKind::PromotionCaptureQueen, PieceType::Queen),
    ];
    for (kind, piece) in all {
        let mv = Move::new(63, 63, kind);
        assert!(mv.is_promotion());
        assert_eq!(mv.promo_piece_type(), piece);
        assert_eq!((mv.from(), mv.to()), (63, 63));
    }
}

#[test]
fn captures_count_what_they_take() {
    let mut td = thread(&[(12, W, PieceType::Pawn), (19, B, PieceType::Knight)]);
    let mv = Move::new(12, 19, MoveKind::Capture);
    assert_eq!(score_noisy_move(&td, mv), 4800);
    let record = NoisyRecord {
        threats: NONE,
        piece: Piece::Of(W, PieceType::Pawn),
        to: 19,
        captured: PieceType::Knight,
        value: 77,
    };
    td.noisy_history.records.push(NoisyRecord { threats: set(&[1]), ..record });
    td.noisy_history.records.push(NoisyRecord { piece: Piece::Empty, ..record });
    td.noisy_history.records.push(NoisyRecord { to: 20, ..record });
    td.noisy_history.records.push(NoisyRecord { captured: PieceType::Pawn, ..record });
    assert_eq!(score_noisy_move(&td, mv), 4800);
    td.noisy_history.records.push(record);
    assert_eq!(score_noisy_move(&td, mv), 4877);
    td.board.all_threats = set(&[1]);
    td.noisy_history.records[0].value = -5000;
    assert_eq!(score_noisy_move(&td, mv), -200);
}

#[test]
fn captures_in_passing_take_a_pawn() {
    let td = thread(&[(33, W, PieceType::Pawn), (34, B, PieceType::Pawn)]);
    assert_eq!(score_noisy_move(&td, Move::new(33, 42, MoveKind::EnPassant)), 1600);
    assert_eq!(score_noisy_move(&td, Move::new(33, 42, MoveKind::Capture)), 0);
}

#[test]
fn a_new_queen_counts() {
    let td = thread(&[(48, W, PieceType::Pawn), (57, B, PieceType::Rook)]);
    assert_eq!(score_noisy_move(&td, Move::new(48, 56, MoveKind::PromotionQueen)), 4000);
    assert_eq!(score_noisy_move(&td, Move::new(48, 56, MoveKind::PromotionKnight)), 0);
    assert_eq!(score_noisy_move(&td, Move::new(48, 57, MoveKind::PromotionCaptureQueen)), 12000);
    assert_eq!(score_noisy_move(&td, Move::new(48, 57, MoveKind::PromotionCaptureRook)), 8000);
}

#[test]
fn in_check_the_least_piece_comes_first() {
    let mut td = thread(&[(3, W, PieceType::Queen), (12, W, PieceType::Pawn)]);
    td.board.in_check = true;
    assert_eq!(score_noisy_move(&td, Move::new(12, 19, MoveKind::Capture)), 10000);
    assert_eq!(score_noisy_move(&td, Move::new(3, 19, MoveKind::Capture)), 6000);
    assert_eq!(score_noisy_move(&td, Move::new(4, 12, MoveKind::Capture)), 5000);
    assert_eq!(score_noisy_move(&td, Move::new(20, 12, MoveKind::Capture)), 4000);
}

#[test]
fn the_center_counts() {
    let td = thread(&[(1, W, PieceType::Knight), (18, W, PieceType::Knight)]);
    assert_eq!(score(&td, 1, 16), 640);
    assert_eq!(score(&td, 1, 18), 1152);
    assert_eq!(score(&td, 18, 35), 1664);
    assert_eq!(score(&td, 18, 24), 128);
}

#[test]
fn lesser_attackers_count() {
    let mut td = thread(&[
        (0, W, PieceType::Rook),
        (1, W, PieceType::Knight),
        (2, W, PieceType::Bishop),
        (3, W, PieceType::Queen),
    ]);
    td.board.threats_by[0] = set(&[0, 1, 2, 3, 4, 16]);
    assert_eq!(score(&td, 1, 16), -7584 - 320 + 7768 + 320);
    assert_eq!(score(&td, 1, 10), 7768 + 960);
    assert_eq!(score(&td, 2, 9), 8218 + 960);
    assert_eq!(score(&td, 0, 8), 13424 + 960);
    assert_eq!(score(&td, 3, 10), 20208 + 960);
    assert_eq!(score(&td, 4, 5), 640);
    td.board.threats_by[0] = set(&[16]);
    assert_eq!(score(&td, 1, 16), -7584 - 320);
    td.board.threats_by[0] = NONE;
    td.board.threats_by[1] = set(&[0, 1, 2, 3]);
    assert_eq!(score(&td, 1, 16), 640);
    assert_eq!(score(&td, 2, 9), 640);
    assert_eq!(score(&td, 0, 8), 13424 + 960);
    assert_eq!(score(&td, 3, 10), 20208 + 960);
    td.board.threats_by[1] = NONE;
    td.board.threats_by[2] = set(&[0, 3]);
    assert_eq!(score(&td, 0, 8), 13424 + 960);
    assert_eq!(score(&td, 3, 10), 20208 + 960);
    td.board.threats_by[2] = NONE;
    td.board.threats_by[3] = set(&[0, 3]);
    assert_eq!(score(&td, 0, 8), 640);
    assert_eq!(score(&td, 3, 10), 20208 + 960);
    td.board.threats_by[3] = NONE;
    td.board.threats_by[4] = set(&[0, 3]);
    assert_eq!(score(&td, 3, 10), 640);
}

#[test]
fn checks_count() {
    let mut td = thread(&[(1, W, PieceType::Knight), (2, W, PieceType::Bishop)]);
    td.board.checks_by[1] = set(&[16]);
    assert_eq!(score(&td, 1, 16), 640 + 9325);
    assert_eq!(score(&td, 1, 10), 640);
    assert_eq!(score(&td, 2, 16), 640);
}

#[test]
fn knights_hunt_queens_rooks_and_loose_bishops() {
    for (kind, loose, protected) in [
        (PieceType::Queen, 6798, 6798),
        (PieceType::Rook, 6798, 6798),
        (PieceType::Bishop, 6798, 640),
        (PieceType::Knight, 640, 640),
    ] {
        let mut td = thread(&[(1, W, PieceType::Knight), (33, B, kind)]);
        assert_eq!(score(&td, 1, 16), loose);
        td.board.all_threats = set(&[33]);
        assert_eq!(score(&td, 1, 16), protected);
        td.board.all_threats = set(&[16]);
        assert_eq!(score(&td, 1, 16), 640);
    }
    // Their own pieces only.
    let td = thread(&[(1, W, PieceType::Knight), (33, W, PieceType::Queen)]);
    assert_eq!(score(&td, 1, 16), 640);
}

#[test]
fn bishops_hunt_rooks() {
    let mut td = thread(&[(2, W, PieceType::Bishop), (33, B, PieceType::Rook)]);
    assert_eq!(score(&td, 2, 24), 6798);
    assert_eq!(score(&td, 2, 25), 640);
    assert_eq!(score(&td, 2, 12), 6798);
    td.board.all_threats = set(&[33]);
    assert_eq!(score(&td, 2, 24), 6798);
    // A piece in between.
    td.board.mailbox[19] = Piece::Of(W, PieceType::Pawn);
    assert_eq!(score(&td, 2, 12), 640);
}

#[test]
fn queens_hunt_loose_pieces() {
    let mut td = thread(&[(3, W, PieceType::Queen), (33, B, PieceType::Bishop)]);
    assert_eq!(score(&td, 3, 17), 6798);
    assert_eq!(score(&td, 3, 24), 640);
    td.board.all_threats = set(&[33]);
    assert_eq!(score(&td, 3, 17), 640);
    let mut td = thread(&[(3, W, PieceType::Queen), (33, B, PieceType::Rook)]);
    assert_eq!(score(&td, 3, 17), 640);
    assert_eq!(score(&td, 3, 24), 6798);
    td.board.all_threats = set(&[33]);
    assert_eq!(score(&td, 3, 24), 640);
}

#[test]
fn pawns_hunt_anything() {
    let mut td = thread(&[(16, W, PieceType::Pawn), (33, B, PieceType::Knight)]);
    assert_eq!(score(&td, 16, 24), 6798);
    td.board.all_threats = set(&[24]);
    assert_eq!(score(&td, 16, 24), 640);
}

#[test]
fn rooks_aim_at_the_king_ring() {
    let mut td = thread(&[(0, W, PieceType::Rook), (1, W, PieceType::Knight)]);
    assert_eq!(score(&td, 0, 3), 5640);
    assert_eq!(score(&td, 0, 2), 640);
    assert_eq!(score(&td, 0, 48), 5640);
    assert_eq!(score(&td, 1, 11), 640);
    td.board.all_threats = set(&[3]);
    assert_eq!(score(&td, 0, 3), 640);
    td.board.all_threats = NONE;
    td.board.mailbox[27] = Piece::Of(B, PieceType::Pawn);
    assert_eq!(score(&td, 0, 3), 640);
}

#[test]
fn the_wall_of_a_king_at_home_stands() {
    let mut td = thread(&[(12, W, PieceType::Pawn), (8, W, PieceType::Pawn)]);
    assert_eq!(score(&td, 12, 20), 1152 - 4000);
    assert_eq!(score(&td, 8, 16), 640);
    td.params.home_rows = [NONE, NONE];
    assert_eq!(score(&td, 12, 20), 1152);
}

#[test]
fn the_ring_of_the_king_counts() {
    let td = thread(&[(34, W, PieceType::Knight), (51, W, PieceType::Knight)]);
    assert_eq!(score(&td, 34, 51), 640 - 512 + 768);
    assert_eq!(score(&td, 51, 34), 640 + 512 - 768);
    assert_eq!(score(&td, 51, 61), 640);
    assert_eq!(score(&td, 51, 60), 640);
}

#[test]
fn what_has_been_learned_counts() {
    let mv = quiet(1, 16);
    let mut td = thread(&[(1, W, PieceType::Knight)]);
    td.counters.push(CounterRecord { ply: 2, mv });
    assert_eq!(score(&td, 1, 16), 640);
    td.counters.push(CounterRecord { ply: 3, mv });
    assert_eq!(score(&td, 1, 16), 1840);
    td.quiet_history.records.push(QuietRecord { threats: set(&[5]), side: W, mv, value: 9 });
    td.quiet_history.records.push(QuietRecord { threats: NONE, side: B, mv, value: 9 });
    assert_eq!(score(&td, 1, 16), 1840);
    td.quiet_history.records.push(QuietRecord { threats: NONE, side: W, mv, value: -100 });
    assert_eq!(score(&td, 1, 16), 1640);
    for (index, value, sum) in [(1, -3, 1636), (2, 50, 1686), (3, 1000, 1686), (4, -7, 1679)] {
        td.continuations.push(ContinuationRecord { ply: 3, index, mv, value });
        assert_eq!(score(&td, 1, 16), sum);
    }
    td.continuations.push(ContinuationRecord { ply: 3, index: 6, mv, value: 20 });
    td.continuations.push(ContinuationRecord { ply: 4, index: 6, mv, value: 21 });
    assert_eq!(score(&td, 1, 16), 1699);
    td.continuations[0].value = 3;
    assert_eq!(score(&td, 1, 16), 1707);
}

#[test]
fn moderate_scores_fit() {
    let mv = quiet(1, 16);
    let mut td = thread(&[(1, W, PieceType::Knight), (19, B, PieceType::Knight)]);
    td.quiet_history.records.push(QuietRecord { threats: NONE, side: W, mv, value: 1_000_000 });
    for index in [1, 2, 4, 6] {
        td.continuations.push(ContinuationRecord { ply: 3, index, mv, value: -1_000_000 });
    }
    assert_eq!(score(&td, 1, 16), 2_000_000 - 1_500_000 - 3_000_000 + 640);
    td.params.piece_values[1] = 100_000_000;
    let capture = Move::new(1, 19, MoveKind::Capture);
    assert_eq!(score_noisy_move(&td, capture), 1_600_000_000);
}

#[test]
fn the_other_side_scores_alike() {
    let mut td = thread(&[(12, W, PieceType::Pawn), (52, B, PieceType::Pawn), (0, B, PieceType::Rook)]);
    td.board.side_to_move = B;
    assert_eq!(score(&td, 52, 44), 1152 - 4000);
    // The ring of the white king, from afar.
    assert_eq!(score(&td, 0, 51), 5640);
    assert_eq!(score(&td, 0, 50), 640);
}

#[test]
fn the_center_term_of_a_move_and_its_reverse_cancel() {
    let weight = |s: u8| {
        let (f, r) = (s % 8, s / 8);
        if (3..=4).contains(&f) && (3..=4).contains(&r) {
            3
        } else if (2..=5).contains(&f) && (2..=5).contains(&r) {
            1
        } else {
            0
        }
    };
    for from in 5..48u8 {
        for to in 5..48u8 {
            let there = thread(&[(from, W, PieceType::Knight)]);
            let back = thread(&[(to, W, PieceType::Knight)]);
            let term = score(&there, from, to) - 640;
            assert_eq!(term, 512 * (weight(to) - weight(from)));
            assert_eq!(term + score(&back, to, from) - 640, 0);
        }
    }
}

#[test]
fn what_can_be_scored_is_known_beforehand() {
    let mv = quiet(1, 16);
    let capture = Move::new(1, 19, MoveKind::Capture);
    let mut td = thread(&[(1, W, PieceType::Knight), (19, B, PieceType::Knight)]);
    assert!(QuietContext::new(&td).can_score_quiet_move(&td, 3, mv));
    // Nothing to move.
    assert!(!QuietContext::new(&td).can_score_quiet_move(&td, 3, quiet(2, 16)));
    td.quiet_history.records.push(QuietRecord { threats: NONE, side: W, mv, value: 1048575 });
    assert!(QuietContext::new(&td).can_score_quiet_move(&td, 3, mv));
    td.quiet_history.records[0].value = 1048576;
    assert!(!QuietContext::new(&td).can_score_quiet_move(&td, 3, mv));
    td.quiet_history.records[0].value = 0;
    td.continuations.push(ContinuationRecord { ply: 3, index: 1, mv, value: 1398101 });
    assert!(QuietContext::new(&td).can_score_quiet_move(&td, 3, mv));
    td.continuations[0].value = 1398102;
    assert!(!QuietContext::new(&td).can_score_quiet_move(&td, 3, mv));
    // A sum on the way that is too large.
    td.continuations[0].value = 0;
    td.continuations.push(ContinuationRecord { ply: 3, index: 2, mv, value: i32::MAX });
    td.continuations.push(ContinuationRecord { ply: 3, index: 4, mv, value: 1 });
    td.continuations.push(ContinuationRecord { ply: 3, index: 6, mv, value: -100000 });
    assert!(!QuietContext::new(&td).can_score_quiet_move(&td, 3, mv));
    td.continuations[2].value = 0;
    assert!(QuietContext::new(&td).can_score_quiet_move(&td, 3, mv));

    assert_eq!(can_score_noisy_move(&td, capture), (true, true));
    td.params.piece_values[1] = 134217728;
    assert_eq!(can_score_noisy_move(&td, capture), (false, true));
    td.params.piece_values[1] = -134217728;
    assert_eq!(can_score_noisy_move(&td, capture), (true, false));
    td.board.in_check = true;
    assert_eq!(can_score_noisy_move(&td, capture), (true, true));
}

#[test]
fn each_side_has_one_king() {
    let mut td = thread(&[]);
    assert!(td.board.is_wf());
    td.board.mailbox[5] = Piece::Of(W, PieceType::King);
    assert!(!td.board.is_wf());
    td.board.mailbox[5] = Piece::Empty;
    td.board.mailbox[60] = Piece::Of(B, PieceType::Queen);
    assert!(!td.board.is_wf());
}
