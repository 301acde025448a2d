use ffce_engine::board::{Board, Move};
use ffce_engine::constants::{BISHOP, BLACK, KING, KNIGHT, PAWN, QUEEN, ROOK, WHITE};
use ffce_engine::engine::{
    board_snapshot, encode_moves, encode_piece, extra_index, find_legal_move, game_status,
    in_check_code, legal_move_bytes, make_move, pack_move, STATUS_BLACK_WINS, STATUS_DRAW, STATUS_ONGOING,
    STATUS_STALEMATE, STATUS_WHITE_WINS,
};

#[test]
fn piece_codes() {
    assert_eq!(encode_piece(PAWN, WHITE), 1);
    assert_eq!(encode_piece(KING, WHITE), 6);
    assert_eq!(encode_piece(PAWN, BLACK), 9);
    assert_eq!(encode_piece(KING, BLACK), 14);
}

#[test]
fn snapshot_of_start_position() {
    let s = board_snapshot(&Board::new());
    assert_eq!(s[0], ROOK);
    assert_eq!(s[4], KING);
    assert_eq!(s[8], PAWN);
    assert_eq!(s[3 * 8 + 3], 0);
    assert_eq!(s[6 * 8], PAWN + 8);
    assert_eq!(s[7 * 8 + 3], QUEEN + 8);
}

#[test]
fn packed_move_fields() {
    assert_eq!(pack_move(&Move::new(4, 1, 4, 3)), 4 | (1 << 3) | (4 << 6) | (3 << 9));
    assert_eq!(pack_move(&Move::promo(0, 6, 0, 7, QUEEN)), (6 << 3) | (7 << 9) | (5 << 12));
    assert_eq!(pack_move(&Move::new(7, 7, 7, 7)), 7 + 56 + 448 + 3584);
}

#[test]
fn move_bytes() {
    let moves = vec![Move::new(1, 0, 2, 2), Move::promo(0, 6, 0, 7, KNIGHT)];
    let (bytes, n) = encode_moves(&moves);
    assert_eq!(n, 2);
    assert_eq!(bytes, vec![1, 0, 2, 2, 0, 0, 6, 0, 7, KNIGHT]);
    let many = vec![Move::new(0, 0, 1, 1); 300];
    let (bytes, n) = encode_moves(&many);
    assert_eq!(n, 256);
    assert_eq!(bytes.len(), 1280);
}

#[test]
fn find_and_make_moves() {
    let b = Board::new();
    assert_eq!(find_legal_move(&b, 4, 1, 4, 3, 0), Some(Move::new(4, 1, 4, 3)));
    assert_eq!(find_legal_move(&b, 4, 1, 4, 4, 0), None);
    assert_eq!(find_legal_move(&b, 4, 6, 4, 4, 0), None); // not White's pawn
    let mut c = Board::new();
    assert_eq!(make_move(&mut c, 6, 0, 5, 2, -1), Some(Move::new(6, 0, 5, 2)));
    assert_eq!(c.side_to_move, BLACK);
    let before = c.position_hash();
    assert_eq!(make_move(&mut c, 6, 0, 5, 2, -1), None);
    assert_eq!(c.position_hash(), before);
}

#[test]
fn promotion_request_is_honoured() {
    let mut b = Board::empty();
    b.add_piece(PAWN, WHITE, 0, 6);
    b.add_piece(KING, WHITE, 7, 0);
    b.add_piece(KING, BLACK, 7, 7);
    assert_eq!(find_legal_move(&b, 0, 6, 0, 7, ROOK), Some(Move::promo(0, 6, 0, 7, ROOK)));
    assert_eq!(make_move(&mut b, 0, 6, 0, 7, BISHOP as i32), Some(Move::promo(0, 6, 0, 7, BISHOP)));
    assert_eq!(b.get_piece(0, 7).unwrap().ptype, BISHOP);
}

#[test]
fn status_values() {
    assert_eq!(game_status(&Board::new()), STATUS_ONGOING);
    let mut draw = Board::new();
    draw.halfmove = 100;
    assert_eq!(game_status(&draw), STATUS_DRAW);
    // Fool's mate: White is checkmated.
    let mut m = Board::new();
    for (fx, fy, tx, ty) in [(5, 1, 5, 2), (4, 6, 4, 4), (6, 1, 6, 3), (3, 7, 7, 3)] {
        m.apply_move(&Move::new(fx, fy, tx, ty));
    }
    assert!(m.is_in_check(WHITE));
    assert_eq!(game_status(&m), STATUS_BLACK_WINS);
    // Back-rank mate: Black is checkmated.
    let mut w = Board::empty();
    w.add_piece(KING, BLACK, 6, 7);
    w.add_piece(PAWN, BLACK, 5, 6);
    w.add_piece(PAWN, BLACK, 6, 6);
    w.add_piece(PAWN, BLACK, 7, 6);
    w.add_piece(ROOK, WHITE, 0, 7);
    w.add_piece(KING, WHITE, 6, 0);
    w.side_to_move = BLACK;
    assert_eq!(game_status(&w), STATUS_WHITE_WINS);
    // Stalemate.
    let mut s = Board::empty();
    s.add_piece(QUEEN, WHITE, 2, 7);
    s.add_piece(ROOK, WHITE, 1, 2);
    s.add_piece(BISHOP, WHITE, 4, 1);
    s.add_piece(KING, WHITE, 7, 0);
    s.add_piece(KING, BLACK, 0, 6);
    s.side_to_move = BLACK;
    assert_eq!(game_status(&s), STATUS_STALEMATE);
}

#[test]
fn check_codes() {
    let mut b = Board::empty();
    b.add_piece(KING, BLACK, 4, 7);
    b.add_piece(ROOK, WHITE, 4, 0);
    assert_eq!(in_check_code(&b, -1), 1);
    assert_eq!(in_check_code(&b, -7), 1);
    assert_eq!(in_check_code(&b, 0), 0);
    assert_eq!(in_check_code(&b, 1), 0);
}

#[test]
fn extra_indices() {
    assert_eq!(extra_index(0), Some(0));
    assert_eq!(extra_index(12), Some(12));
    assert_eq!(extra_index(13), None);
    assert_eq!(extra_index(-1), None);
}

#[test]
fn legal_move_bytes_of_the_start_position() {
    let b = Board::new();
    let (bytes, n) = legal_move_bytes(&b);
    assert_eq!(n, 20);
    assert_eq!(bytes.len(), 100);
    // a-pawn single then double step come first, the g1 knight's jumps last
    assert_eq!(&bytes[0..10], &[0, 1, 0, 2, 0, 0, 1, 0, 3, 0]);
    assert_eq!(&bytes[90..100], &[6, 0, 7, 2, 0, 6, 0, 5, 2, 0]);
    let mut c = Board::new();
    c.apply_move(&Move::new(4, 1, 4, 3));
    let (_, m) = legal_move_bytes(&c);
    assert_eq!(m, 20);
}
