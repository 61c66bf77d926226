use chess_search::bitboard::Bitboard;
use chess_search::lookup::{
    bishop_attacks, bishop_attacks_from, king_attacks, knight_attacks, knight_attacks_from,
    pawn_attacks_setwise, rook_attacks, rook_attacks_from,
};
use chess_search::types::Color;

fn set(squares: &[u8]) -> Bitboard {
    let mut r = Bitboard::empty();
    for s in squares {
        r = r.with(*s);
    }
    r
}

#[test]
fn sets_of_squares() {
    let a = set(&[0, 9, 63]);
    let b = set(&[9, 10]);
    assert_eq!(a.bits, 1 | 1 << 9 | 1 << 63);
    assert_eq!(a.union(b), set(&[0, 9, 10, 63]));
    assert_eq!(a.both(b), set(&[9]));
    assert_eq!(a.without(b), set(&[0, 63]));
    assert!(a.contains(63));
    assert!(!a.contains(62));
    assert_eq!(Bitboard::empty().bits, 0);
}

#[test]
fn kings_attack_their_neighbours() {
    assert_eq!(king_attacks(0), set(&[1, 8, 9]));
    assert_eq!(king_attacks(27), set(&[18, 19, 20, 26, 28, 34, 35, 36]));
    assert_eq!(king_attacks(7), set(&[6, 14, 15]));
    assert_eq!(king_attacks(63), set(&[54, 55, 62]));
}

#[test]
fn knights_jump() {
    assert_eq!(knight_attacks(0), set(&[10, 17]));
    assert_eq!(knight_attacks(27), set(&[10, 12, 17, 21, 33, 37, 42, 44]));
    assert_eq!(knight_attacks(63), set(&[46, 53]));
}

#[test]
fn pawns_attack_forwards() {
    assert_eq!(pawn_attacks_setwise(set(&[8, 15, 27]), Color::White), set(&[17, 22, 34, 36]));
    assert_eq!(pawn_attacks_setwise(set(&[8, 15, 27]), Color::Black), set(&[1, 6, 18, 20]));
    assert_eq!(pawn_attacks_setwise(set(&[60]), Color::White), Bitboard::empty());
    assert_eq!(pawn_attacks_setwise(set(&[4]), Color::Black), Bitboard::empty());
}

#[test]
fn rooks_stop_at_the_first_piece() {
    assert_eq!(
        rook_attacks(0, Bitboard::empty()),
        set(&[1, 2, 3, 4, 5, 6, 7, 8, 16, 24, 32, 40, 48, 56])
    );
    assert_eq!(rook_attacks(27, set(&[29, 43, 11, 26])), set(&[26, 28, 29, 35, 43, 19, 11]));
    assert_eq!(
        rook_attacks(63, set(&[55, 62])),
        set(&[55, 62])
    );
}

#[test]
fn bishops_stop_at_the_first_piece() {
    assert_eq!(bishop_attacks(0, Bitboard::empty()), set(&[9, 18, 27, 36, 45, 54, 63]));
    assert_eq!(
        bishop_attacks(27, set(&[45, 9, 34, 13])),
        set(&[36, 45, 18, 9, 34, 20, 13])
    );
    assert_eq!(bishop_attacks(7, set(&[14])), set(&[14]));
}

#[test]
fn attacks_from_several_squares() {
    assert_eq!(knight_attacks_from(set(&[0, 63])), set(&[10, 17, 46, 53]));
    assert_eq!(knight_attacks_from(Bitboard::empty()), Bitboard::empty());
    assert_eq!(rook_attacks_from(set(&[0, 63]), set(&[1, 8, 55, 62])), set(&[1, 8, 55, 62]));
    assert_eq!(bishop_attacks_from(set(&[0, 7]), set(&[9, 14])), set(&[9, 14]));
}

#[test]
fn attacks_are_mutual_on_a_board() {
    let occupied = set(&[3, 12, 21, 28, 35, 44, 50, 58]);
    for s in 0..64u8 {
        for t in 0..64u8 {
            assert_eq!(king_attacks(s).contains(t), king_attacks(t).contains(s));
            assert_eq!(knight_attacks(s).contains(t), knight_attacks(t).contains(s));
            assert_eq!(
                rook_attacks(s, occupied).contains(t),
                rook_attacks(t, occupied).contains(s)
            );
            assert_eq!(
                bishop_attacks(s, occupied).contains(t),
                bishop_attacks(t, occupied).contains(s)
            );
            assert_eq!(
                pawn_attacks_setwise(set(&[s]), Color::White).contains(t),
                pawn_attacks_setwise(set(&[t]), Color::Black).contains(s)
            );
        }
    }
}
