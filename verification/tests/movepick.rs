use chess_search::bitboard::Bitboard;
use chess_search::board::{Board, Exchange};
use chess_search::movepick::{MovePicker, Stage};
use chess_search::search::{Inner, NodeType, Root};
use chess_search::thread::{
    NoisyHistory, NoisyRecord, Params, QuietHistory, QuietRecord, ThreadData,
};
use chess_search::types::{Color, Move, MoveKind, Piece, PieceType};

const NONE: Bitboard = Bitboard { bits: 0 };

/// White to move, with kings, a queen on d1 and a knight on b1. The captures, made by the queen,
/// take a pawn on their target and have a score and the gain of their exchange; the quiet moves,
/// made by the knight, have what their history adds to their score.
fn thread(captures: &[(u8, i32, i32)], quiets: &[(u8, i32)]) -> ThreadData {
    let mut mailbox = [Piece::Empty; 64];
    mailbox[1] = Piece::Of(Color::White, PieceType::Knight);
    mailbox[3] = Piece::Of(Color::White, PieceType::Queen);
    mailbox[4] = Piece::Of(Color::White, PieceType::King);
    mailbox[60] = Piece::Of(Color::Black, PieceType::King);
    let mut td = ThreadData {
        board: Board {
            mailbox,
            side_to_move: Color::White,
            in_check: false,
            all_threats: NONE,
            threats_by: [NONE; 6],
            checks_by: [NONE; 6],
            noisy_moves: vec![],
            quiet_moves: vec![],
            legal_moves: vec![],
            exchanges: vec![],
        },
        noisy_history: NoisyHistory { records: vec![] },
        quiet_history: QuietHistory { records: vec![] },
        continuations: vec![],
        counters: vec![],
        params: Params { piece_values: [100, 0, 0, 0, 0, 0, 0], home_rows: [NONE, NONE] },
        completed_depth: 0,
        nodes: 0,
        shared_nodes: 0,
    };
    for (to, score, gain) in captures {
        let mv = noisy(*to);
        td.board.mailbox[*to as usize] = Piece::Of(Color::Black, PieceType::Pawn);
        td.board.noisy_moves.push(mv);
        td.board.legal_moves.push(mv);
        td.board.exchanges.push(Exchange { mv, gain: *gain });
        td.noisy_history.records.push(NoisyRecord {
            threats: NONE,
            piece: Piece::Of(Color::White, PieceType::Queen),
            to: *to,
            captured: PieceType::Pawn,
            value: *score - 1600,
        });
    }
    for (to, learned) in quiets {
        let mv = quiet(*to);
        td.board.quiet_moves.push(mv);
        td.board.legal_moves.push(mv);
        td.quiet_history.records.push(QuietRecord {
            threats: NONE,
            side: Color::White,
            mv,
            value: *learned,
        });
    }
    td
}

fn noisy(to: u8) -> Move {
    Move::new(3, to, MoveKind::Capture)
}

fn quiet(to: u8) -> Move {
    Move::new(1, to, MoveKind::Normal)
}

fn all<NODE: NodeType>(picker: &mut MovePicker, td: &ThreadData, skip: bool) -> Vec<Move> {
    let mut moves = vec![];
    while let Some(mv) = picker.next::<NODE>(td, skip, 0) {
        moves.push(mv);
    }
    moves
}

#[test]
fn stages_are_ordered() {
    assert!(Stage::HashMove < Stage::GenerateNoisy);
    assert!(Stage::GenerateNoisy < Stage::GoodNoisy);
    assert!(Stage::GoodNoisy < Stage::GenerateQuiet);
    assert!(Stage::GenerateQuiet < Stage::Quiet);
    assert!(Stage::Quiet < Stage::BadNoisy);
}

#[test]
fn a_new_picker_starts_with_the_hash_move_if_there_is_one() {
    assert_eq!(MovePicker::new(quiet(16)).stage(), Stage::HashMove);
    assert_eq!(MovePicker::new(Move::null()).stage(), Stage::GenerateNoisy);
    assert_eq!(MovePicker::new_probcut(5).stage(), Stage::GenerateNoisy);
    assert_eq!(MovePicker::new_qsearch().stage(), Stage::GenerateNoisy);
}

#[test]
fn the_stages_in_turn() {
    let td = thread(&[(10, 1600, 500), (11, 3000, -900)], &[(16, 0), (18, 0)]);
    let mut picker = MovePicker::new(quiet(18));
    assert_eq!(picker.next::<Inner>(&td, false, 0), Some(quiet(18)));
    assert_eq!(picker.stage(), Stage::GenerateNoisy);
    assert_eq!(picker.next::<Inner>(&td, false, 0), Some(noisy(10)));
    assert_eq!(picker.stage(), Stage::GoodNoisy);
    assert_eq!(picker.next::<Inner>(&td, false, 0), Some(quiet(16)));
    assert_eq!(picker.stage(), Stage::Quiet);
    assert_eq!(picker.next::<Inner>(&td, false, 0), Some(noisy(11)));
    assert_eq!(picker.stage(), Stage::BadNoisy);
    assert_eq!(picker.next::<Inner>(&td, false, 0), None);
    assert_eq!(picker.stage(), Stage::BadNoisy);
    assert_eq!(picker.next::<Inner>(&td, false, 0), None);
    assert_eq!(picker.next::<Root>(&td, true, 7), None);
}

#[test]
fn a_noisy_hash_move_comes_once() {
    let td = thread(&[(10, 1600, 500), (11, 3000, 500)], &[(16, 0)]);
    let mut picker = MovePicker::new(noisy(10));
    assert_eq!(all::<Inner>(&mut picker, &td, false), vec![noisy(10), noisy(11), quiet(16)]);
    // Where its exchange would lose material, too.
    let td = thread(&[(10, 1600, -500), (11, 3000, 500)], &[(16, 0)]);
    let mut picker = MovePicker::new(noisy(10));
    assert_eq!(all::<Inner>(&mut picker, &td, false), vec![noisy(10), noisy(11), quiet(16)]);
}

#[test]
fn an_illegal_hash_move_is_passed_over() {
    let mut td = thread(&[(10, 1600, 500)], &[(16, 0), (18, 0)]);
    td.board.legal_moves.retain(|mv| *mv != quiet(18));
    let mut picker = MovePicker::new(quiet(18));
    assert_eq!(picker.next::<Inner>(&td, false, 0), Some(noisy(10)));
    assert_eq!(all::<Inner>(&mut picker, &td, false), vec![quiet(16)]);
}

#[test]
fn captures_come_by_score_and_of_equals_the_last_first() {
    let td = thread(&[(10, 2000, 999), (11, 5000, 999), (12, 2000, 999), (13, 1000, 999)], &[]);
    let mut picker = MovePicker::new_qsearch();
    assert_eq!(
        all::<Inner>(&mut picker, &td, true),
        vec![noisy(11), noisy(12), noisy(10), noisy(13)]
    );
}

#[test]
fn quiet_moves_come_by_score_and_of_equals_the_last_first() {
    // Without history, c3 is 512 ahead for being nearer to the center.
    let td = thread(&[], &[(16, 256), (18, 0), (11, 300), (0, -50), (2, 300)]);
    let mut picker = MovePicker::new(Move::null());
    assert_eq!(
        all::<Inner>(&mut picker, &td, false),
        vec![quiet(2), quiet(11), quiet(18), quiet(16), quiet(0)]
    );
}

#[test]
fn better_captures_may_lose_more() {
    // The exchange must be worth 111 less a 45th of the score, rounded towards zero.
    for (score, worth) in [(1600, 76), (8000, -66), (0, 111), (44, 111), (45, 110), (-44, 111), (-18400, 519)] {
        let td = thread(&[(10, score, worth)], &[(16, 0)]);
        let mut picker = MovePicker::new(Move::null());
        assert_eq!(all::<Inner>(&mut picker, &td, false), vec![noisy(10), quiet(16)]);
        let td = thread(&[(10, score, worth - 1)], &[(16, 0)]);
        let mut picker = MovePicker::new(Move::null());
        assert_eq!(all::<Inner>(&mut picker, &td, false), vec![quiet(16), noisy(10)]);
    }
}

#[test]
fn a_fixed_threshold_takes_the_place_of_the_score() {
    let td = thread(&[(10, 9000, 199), (11, 0, 200), (12, -5000, 700)], &[(16, 0)]);
    let mut picker = MovePicker::new_probcut(200);
    assert_eq!(
        all::<Inner>(&mut picker, &td, false),
        vec![noisy(11), noisy(12), quiet(16), noisy(10)]
    );
    // A score that could not be negated is not.
    let mut td = thread(&[(10, 0, 200)], &[]);
    td.params.piece_values[0] = -134217728;
    td.noisy_history.records[0].value = 0;
    let mut picker = MovePicker::new_probcut(200);
    assert_eq!(all::<Inner>(&mut picker, &td, true), vec![noisy(10)]);
}

#[test]
fn captures_put_off_come_last_in_their_order() {
    let td = thread(&[(10, 1000, -900), (11, 3000, -900), (12, 2000, -900), (13, 100, 500)], &[(16, 0)]);
    let mut picker = MovePicker::new(Move::null());
    assert_eq!(
        all::<Inner>(&mut picker, &td, false),
        vec![noisy(13), quiet(16), noisy(11), noisy(12), noisy(10)]
    );
}

#[test]
fn quiet_moves_can_be_skipped() {
    let td = thread(&[(10, 1600, 500), (11, 3000, -900)], &[(16, 0), (18, 0)]);
    let mut picker = MovePicker::new(Move::null());
    assert_eq!(all::<Inner>(&mut picker, &td, true), vec![noisy(10), noisy(11)]);
    assert_eq!(all::<Inner>(&mut picker, &td, false), vec![]);
    // From some point on.
    let mut picker = MovePicker::new(Move::null());
    assert_eq!(picker.next::<Inner>(&td, false, 0), Some(noisy(10)));
    assert_eq!(picker.next::<Inner>(&td, false, 0), Some(quiet(18)));
    assert_eq!(all::<Inner>(&mut picker, &td, true), vec![noisy(11)]);
    // They do not come back.
    let mut picker = MovePicker::new(Move::null());
    assert_eq!(picker.next::<Inner>(&td, true, 0), Some(noisy(10)));
    assert_eq!(picker.next::<Inner>(&td, true, 0), Some(noisy(11)));
    assert_eq!(picker.next::<Inner>(&td, false, 0), None);
    // Skipping while captures are left decides nothing yet.
    let mut picker = MovePicker::new(Move::null());
    assert_eq!(picker.next::<Inner>(&td, true, 0), Some(noisy(10)));
    assert_eq!(all::<Inner>(&mut picker, &td, false), vec![quiet(18), quiet(16), noisy(11)]);
}

#[test]
fn the_root_scores_captures_anew() {
    let before = thread(&[(10, 4000, 999), (11, 3000, 999), (12, 2000, 999), (13, 1000, 999)], &[]);
    let after = thread(&[(10, 4000, 999), (11, 3000, 999), (12, 2000, 999), (13, 9000, 999)], &[]);
    let mut picker = MovePicker::new_qsearch();
    assert_eq!(picker.next::<Root>(&before, true, 0), Some(noisy(10)));
    assert_eq!(picker.next::<Root>(&after, true, 0), Some(noisy(11)));
    assert_eq!(picker.next::<Root>(&after, true, 0), Some(noisy(13)));
    assert_eq!(picker.next::<Root>(&after, true, 0), Some(noisy(12)));
    assert_eq!(picker.next::<Root>(&after, true, 0), None);
    let mut picker = MovePicker::new_qsearch();
    assert_eq!(picker.next::<Inner>(&before, true, 0), Some(noisy(10)));
    assert_eq!(
        all::<Inner>(&mut picker, &after, true),
        vec![noisy(11), noisy(12), noisy(13)]
    );
}

#[test]
fn the_root_scores_quiet_moves_anew() {
    let before = thread(&[], &[(0, 400), (2, 300), (8, 200), (9, 100)]);
    let after = thread(&[], &[(0, 400), (2, 300), (8, 200), (9, 900)]);
    let mut picker = MovePicker::new(Move::null());
    assert_eq!(picker.next::<Root>(&before, false, 0), Some(quiet(0)));
    assert_eq!(picker.next::<Root>(&after, false, 0), Some(quiet(2)));
    assert_eq!(all::<Root>(&mut picker, &after, false), vec![quiet(9), quiet(8)]);
    let mut picker = MovePicker::new(Move::null());
    assert_eq!(picker.next::<Inner>(&before, false, 0), Some(quiet(0)));
    assert_eq!(
        all::<Inner>(&mut picker, &after, false),
        vec![quiet(2), quiet(8), quiet(9)]
    );
}

#[test]
fn every_move_comes_once_wherever_it_is_asked_for() {
    let td = thread(
        &[(10, 1600, 500), (11, 3000, -900), (12, 2500, 80), (13, -7000, 80), (28, 100, 100)],
        &[(16, 40), (18, -3), (0, 9), (2, 9), (8, 0)],
    );
    let hash_moves = [Move::null(), quiet(18), noisy(11), noisy(10)];
    for hash_move in hash_moves {
        let mut inner = MovePicker::new(hash_move);
        let mut root = MovePicker::new(hash_move);
        let given = all::<Inner>(&mut inner, &td, false);
        assert_eq!(all::<Root>(&mut root, &td, false), given);
        if hash_move.is_present() {
            assert_eq!(given[0], hash_move);
        }
        let mut codes: Vec<u16> = given.iter().map(|mv| mv.bits).collect();
        let mut expected: Vec<u16> = td.board.legal_moves.iter().map(|mv| mv.bits).collect();
        codes.sort();
        expected.sort();
        assert_eq!(codes, expected);
    }
}

#[test]
fn in_check_captures_come_by_the_least_piece() {
    let mut td = thread(&[(10, 9000, 999)], &[]);
    let king = Move::new(4, 12, MoveKind::Capture);
    td.board.mailbox[12] = Piece::Of(Color::Black, PieceType::Pawn);
    td.board.noisy_moves.insert(0, king);
    td.board.exchanges.push(Exchange { mv: king, gain: 100 });
    td.board.in_check = true;
    let mut picker = MovePicker::new_qsearch();
    assert_eq!(all::<Inner>(&mut picker, &td, true), vec![noisy(10), king]);
}

#[test]
fn a_position_without_moves() {
    let td = thread(&[], &[]);
    let mut picker = MovePicker::new(Move::null());
    assert_eq!(picker.next::<Inner>(&td, false, 0), None);
    assert_eq!(picker.stage(), Stage::BadNoisy);
    let mut picker = MovePicker::new(quiet(16));
    assert_eq!(picker.next::<Root>(&td, true, 0), None);
}

#[test]
fn no_move_comes_twice_whichever_calls_skip() {
    let td = thread(
        &[(10, 1600, 500), (11, 3000, -900), (12, 2500, 80), (13, -7000, 80)],
        &[(16, 40), (18, -3), (0, 9)],
    );
    for pattern in 0..256u32 {
        let mut picker = MovePicker::new(quiet(18));
        let mut given: Vec<Move> = vec![];
        for call in 0..12u32 {
            let skip = (pattern >> (call % 8)) & 1 == 1;
            let picked = if call % 2 == 0 {
                picker.next::<Inner>(&td, skip, 0)
            } else {
                picker.next::<Root>(&td, skip, 0)
            };
            if let Some(mv) = picked {
                assert!(!given.contains(&mv));
                assert!(td.board.legal_moves.contains(&mv));
                given.push(mv);
            }
        }
        assert_eq!(given[0], quiet(18));
        assert!(given.len() >= 5);
    }
}

#[test]
fn a_picker_knows_whether_it_can_be_asked() {
    let mut td = thread(&[(10, 1600, 500)], &[(16, 0)]);
    assert!(MovePicker::new(Move::null()).can_pick(&td, 0));
    td.params.piece_values[0] = 134217728;
    assert!(!MovePicker::new(Move::null()).can_pick(&td, 0));
    td.params.piece_values[0] = -134217728;
    td.noisy_history.records[0].value = 0;
    assert!(!MovePicker::new(Move::null()).can_pick(&td, 0));
    assert!(!MovePicker::new_qsearch().can_pick(&td, 0));
    assert!(MovePicker::new_probcut(7).can_pick(&td, 0));
    // The score of the hash move is not looked at.
    let mut picker = MovePicker::new(noisy(10));
    assert!(picker.can_pick(&td, 0));
    assert_eq!(all::<Root>(&mut picker, &td, false), vec![noisy(10), quiet(16)]);
    td.params.piece_values[0] = 100;
    td.quiet_history.records[0].value = i32::MAX;
    assert!(!MovePicker::new(Move::null()).can_pick(&td, 0));
    td.quiet_history.records[0].value = 0;
    assert!(MovePicker::new(Move::null()).can_pick(&td, 0));
    td.board.mailbox[60] = Piece::Empty;
    assert!(!MovePicker::new(Move::null()).can_pick(&td, 0));
}

#[test]
fn each_stage_gives_its_own_moves_best_first() {
    let captures = [
        (10, 1600, 500),
        (11, 3000, -900),
        (12, 2500, 80),
        (13, -7000, 80),
        (28, 100, 100),
        (29, 3000, 900),
        (30, 9000, -5000),
    ];
    let quiets = [(16, 40), (0, -3), (2, 9), (8, 9), (9, 0)];
    let td = thread(&captures, &quiets);
    // Whatever is learned after the moves are generated does not matter.
    let mut later = thread(&captures, &quiets);
    for record in later.noisy_history.records.iter_mut() {
        record.value = -record.value;
    }
    let mut picker = MovePicker::new(Move::null());
    let mut last: Option<(Stage, i32)> = None;
    let mut knows = &td;
    let mut count = 0;
    while let Some(mv) = picker.next::<Inner>(knows, false, 0) {
        let stage = picker.stage();
        let score = match captures.iter().find(|c| noisy(c.0) == mv) {
            Some((_, score, gain)) => {
                let worth = *gain >= -score / 45 + 111;
                assert_eq!(stage, if worth { Stage::GoodNoisy } else { Stage::BadNoisy });
                *score
            }
            None => {
                assert_eq!(stage, Stage::Quiet);
                quiets.iter().find(|q| quiet(q.0) == mv).unwrap().1
            }
        };
        if let Some((before, best)) = last {
            assert!(before <= stage);
            assert!(before != stage || best >= score);
        }
        last = Some((stage, score));
        knows = &later;
        count += 1;
    }
    assert_eq!(count, 12);
}
