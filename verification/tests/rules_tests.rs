use ffce_engine::board::{Board, Move};
use ffce_engine::constants::{
    BISHOP, BLACK, CASTLE_BK, CASTLE_BQ, CASTLE_WK, CASTLE_WQ, KING, KNIGHT, PAWN, QUEEN, ROOK, WHITE,
};

fn has(moves: &[Move], m: Move) -> bool {
    moves.iter().any(|x| *x == m)
}

#[test]
fn start_position_layout() {
    let b = Board::new();
    assert_eq!(b.pieces.len(), 32);
    assert_eq!(b.side_to_move, WHITE);
    assert_eq!(b.castling, CASTLE_WK | CASTLE_WQ | CASTLE_BK | CASTLE_BQ);
    assert_eq!(b.en_passant, None);
    assert_eq!(b.halfmove, 0);
    assert_eq!(b.fullmove, 1);
    // e1 king, d8 queen, pawns on ranks 2 and 7.
    assert_eq!(b.get_piece(4, 0).unwrap().ptype, KING);
    assert_eq!(b.get_piece(4, 0).unwrap().color, WHITE);
    assert_eq!(b.get_piece(3, 7).unwrap().ptype, QUEEN);
    assert_eq!(b.get_piece(3, 7).unwrap().color, BLACK);
    for x in 0..8 {
        assert_eq!(b.get_piece(x, 1).unwrap().ptype, PAWN);
        assert_eq!(b.get_piece(x, 6).unwrap().color, BLACK);
        assert!(b.get_piece(x, 3).is_none());
    }
    assert_eq!(b.find_king(WHITE), Some((4, 0)));
    assert_eq!(b.find_king(BLACK), Some((4, 7)));
}

#[test]
fn empty_board_has_no_moves() {
    let b = Board::empty();
    assert!(b.pieces.is_empty());
    assert_eq!(b.castling, 0);
    assert!(b.generate_pseudo_moves(WHITE).is_empty());
    assert!(b.generate_legal_moves(BLACK).is_empty());
    assert!(!b.is_in_check(WHITE));
    assert_eq!(b.find_king(WHITE), None);
}

#[test]
fn attacks_from_every_piece_kind() {
    let mut b = Board::empty();
    b.add_piece(PAWN, WHITE, 3, 3); // d4 pawn attacks c5, e5
    b.add_piece(KNIGHT, BLACK, 0, 0); // a1 knight attacks b3, c2
    b.add_piece(BISHOP, WHITE, 7, 7); // h8 bishop on the long diagonal
    b.add_piece(ROOK, BLACK, 0, 7); // a8 rook along the eighth rank
    b.add_piece(KING, WHITE, 7, 0); // h1 king
    assert!(b.is_square_attacked(2, 4, WHITE));
    assert!(b.is_square_attacked(4, 4, WHITE));
    assert!(!b.is_square_attacked(3, 4, WHITE));
    assert!(b.is_square_attacked(1, 2, BLACK));
    assert!(b.is_square_attacked(2, 1, BLACK));
    assert!(b.is_square_attacked(5, 5, WHITE)); // bishop ray h8..f6
    assert!(!b.is_square_attacked(2, 2, WHITE)); // the d4 pawn blocks the bishop
    assert!(b.is_square_attacked(5, 7, BLACK)); // rook along rank 8 to f8
    assert!(b.is_square_attacked(7, 7, BLACK)); // and onto the bishop on h8
    assert!(b.is_square_attacked(6, 1, WHITE)); // king adjacent
    assert!(!b.is_square_attacked(5, 2, WHITE));
}

#[test]
fn blocked_ray_does_not_attack() {
    let mut b = Board::empty();
    b.add_piece(ROOK, WHITE, 0, 0); // a1
    b.add_piece(PAWN, BLACK, 0, 3); // a4 blocks the file
    assert!(b.is_square_attacked(0, 3, WHITE));
    assert!(!b.is_square_attacked(0, 4, WHITE));
    assert!(b.is_square_attacked(7, 0, WHITE));
}

#[test]
fn check_is_detected() {
    let mut b = Board::empty();
    b.add_piece(KING, WHITE, 4, 0);
    b.add_piece(ROOK, BLACK, 4, 7);
    assert!(b.is_in_check(WHITE));
    assert!(!b.is_in_check(BLACK));
}

#[test]
fn pinned_piece_cannot_leave_the_pin() {
    let mut b = Board::empty();
    b.add_piece(KING, WHITE, 4, 0);
    b.add_piece(BISHOP, WHITE, 4, 1); // e2 bishop pinned on the e-file
    b.add_piece(ROOK, BLACK, 4, 7);
    b.add_piece(KING, BLACK, 0, 7);
    let legal = b.generate_legal_moves(WHITE);
    assert!(legal.iter().all(|m| !(m.fx == 4 && m.fy == 1)));
    let pseudo = b.generate_pseudo_moves(WHITE);
    assert!(pseudo.iter().any(|m| m.fx == 4 && m.fy == 1));
}

#[test]
fn promotion_offers_four_pieces() {
    let mut b = Board::empty();
    b.add_piece(PAWN, WHITE, 0, 6); // a7
    b.add_piece(KING, WHITE, 7, 0);
    b.add_piece(KING, BLACK, 7, 7);
    let legal = b.generate_legal_moves(WHITE);
    for promo in [QUEEN, ROOK, BISHOP, KNIGHT] {
        assert!(has(&legal, Move::promo(0, 6, 0, 7, promo)));
    }
    let mut c = b.clone();
    c.apply_move(&Move::promo(0, 6, 0, 7, KNIGHT));
    assert_eq!(c.get_piece(0, 7).unwrap().ptype, KNIGHT);
    assert!(c.get_piece(0, 6).is_none());
    assert_eq!(c.halfmove, 0);
}

#[test]
fn double_push_sets_en_passant_and_capture_works() {
    let mut b = Board::new();
    b.apply_move(&Move::new(4, 1, 4, 3)); // e4
    assert_eq!(b.en_passant, Some((4, 2)));
    assert_eq!(b.side_to_move, BLACK);
    b.apply_move(&Move::new(0, 6, 0, 5)); // a6
    assert_eq!(b.en_passant, None);
    assert_eq!(b.fullmove, 2);
    b.apply_move(&Move::new(4, 3, 4, 4)); // e5
    b.apply_move(&Move::new(3, 6, 3, 4)); // d5
    assert_eq!(b.en_passant, Some((3, 5)));
    let legal = b.generate_legal_moves(WHITE);
    let mut ep = Move::new(4, 4, 3, 5);
    ep.is_en_passant = true;
    assert!(has(&legal, ep));
    let captured_id = b.board[4][3];
    b.apply_move(&ep);
    assert_eq!(b.board[4][3], 0);
    assert!(!b.pieces[(captured_id - 1) as usize].alive);
    assert_eq!(b.get_piece(3, 5).unwrap().ptype, PAWN);
    assert_eq!(b.halfmove, 0);
}

#[test]
fn castling_moves_king_and_rook_and_drops_rights() {
    let mut b = Board::empty();
    b.add_piece(KING, WHITE, 4, 0);
    b.add_piece(ROOK, WHITE, 7, 0);
    b.add_piece(ROOK, WHITE, 0, 0);
    b.add_piece(KING, BLACK, 4, 7);
    b.castling = CASTLE_WK | CASTLE_WQ;
    let legal = b.generate_legal_moves(WHITE);
    let oo = Move { fx: 4, fy: 0, tx: 6, ty: 0, promotion: 0, is_en_passant: false, is_castle: true };
    let ooo = Move { fx: 4, fy: 0, tx: 2, ty: 0, promotion: 0, is_en_passant: false, is_castle: true };
    assert!(has(&legal, oo));
    assert!(has(&legal, ooo));
    let mut c = b.clone();
    c.apply_move(&oo);
    assert_eq!(c.get_piece(6, 0).unwrap().ptype, KING);
    assert_eq!(c.get_piece(5, 0).unwrap().ptype, ROOK);
    assert!(c.get_piece(7, 0).is_none());
    assert_eq!(c.castling & (CASTLE_WK | CASTLE_WQ), 0);
    assert_eq!(c.halfmove, 1);
}

#[test]
fn castling_through_attack_is_refused() {
    let mut b = Board::empty();
    b.add_piece(KING, WHITE, 4, 0);
    b.add_piece(ROOK, WHITE, 7, 0);
    b.add_piece(ROOK, BLACK, 5, 7); // covers f1
    b.add_piece(KING, BLACK, 0, 7);
    b.castling = CASTLE_WK;
    let pseudo = b.generate_pseudo_moves(WHITE);
    assert!(pseudo.iter().all(|m| !m.is_castle));
}

#[test]
fn rook_move_drops_its_castling_right() {
    let mut b = Board::new();
    b.apply_move(&Move::new(7, 1, 7, 3)); // h4
    b.apply_move(&Move::new(0, 6, 0, 4)); // a5
    b.apply_move(&Move::new(7, 0, 7, 2)); // Rh3
    assert_eq!(b.castling, CASTLE_WQ | CASTLE_BK | CASTLE_BQ);
    b.apply_move(&Move::new(0, 7, 0, 5)); // Ra6
    assert_eq!(b.castling, CASTLE_WQ | CASTLE_BK);
}

#[test]
fn move_from_empty_square_changes_nothing() {
    let mut b = Board::new();
    let before = b.position_hash();
    b.apply_move(&Move::new(4, 3, 4, 4));
    assert_eq!(b.position_hash(), before);
    assert_eq!(b.side_to_move, WHITE);
}

#[test]
fn fingerprint_ignores_piece_ids() {
    let mut a = Board::empty();
    a.add_piece(KING, WHITE, 4, 0);
    a.add_piece(KING, BLACK, 4, 7);
    a.add_piece(QUEEN, WHITE, 3, 0);
    let mut b = Board::empty();
    b.add_piece(QUEEN, WHITE, 3, 0);
    b.add_piece(KING, BLACK, 4, 7);
    b.add_piece(KING, WHITE, 4, 0);
    assert_eq!(a.position_hash(), b.position_hash());
    b.side_to_move = BLACK;
    assert_ne!(a.position_hash(), b.position_hash());
}

#[test]
fn copy_keeps_the_position() {
    let mut b = Board::new();
    b.apply_move(&Move::new(6, 0, 5, 2));
    let c = b.copy();
    assert_eq!(c.position_hash(), b.position_hash());
    assert_eq!(c.pieces.len(), b.pieces.len());
    assert_eq!(c.board, b.board);
}

#[test]
fn piece_lookup_by_id() {
    let b = Board::new();
    let p = b.piece(1);
    assert_eq!((p.ptype, p.color, p.x, p.y), (PAWN, WHITE, 0, 1));
    let q = b.piece(32);
    assert_eq!((q.ptype, q.color, q.x, q.y), (ROOK, BLACK, 7, 7));
}

#[test]
fn knight_has_two_moves_from_the_corner_start() {
    let b = Board::new();
    let pseudo = b.generate_pseudo_moves(WHITE);
    let from_b1: Vec<&Move> = pseudo.iter().filter(|m| m.fx == 1 && m.fy == 0).collect();
    assert_eq!(from_b1.len(), 2);
    assert!(has(&pseudo, Move::new(1, 0, 0, 2)));
    assert!(has(&pseudo, Move::new(1, 0, 2, 2)));
}

#[test]
fn capturing_a_rook_on_its_corner_drops_that_right() {
    let mut b = Board::empty();
    b.add_piece(KING, WHITE, 4, 0);
    b.add_piece(ROOK, WHITE, 7, 0);
    b.add_piece(KING, BLACK, 4, 7);
    b.add_piece(ROOK, BLACK, 7, 7);
    b.castling = CASTLE_WK | CASTLE_BK;
    b.apply_move(&Move::new(7, 0, 7, 7)); // Rxh8
    assert_eq!(b.castling, 0);
}

fn rights_match_home_squares(b: &Board) -> bool {
    let holds = |x: i32, y: i32, c: i32, t: u8| match b.get_piece(x, y) {
        Some(p) => p.alive && p.color == c && p.ptype == t,
        None => false,
    };
    (b.castling & CASTLE_WK == 0 || (holds(4, 0, WHITE, KING) && holds(7, 0, WHITE, ROOK)))
        && (b.castling & CASTLE_WQ == 0 || (holds(4, 0, WHITE, KING) && holds(0, 0, WHITE, ROOK)))
        && (b.castling & CASTLE_BK == 0 || (holds(4, 7, BLACK, KING) && holds(7, 7, BLACK, ROOK)))
        && (b.castling & CASTLE_BQ == 0 || (holds(4, 7, BLACK, KING) && holds(0, 7, BLACK, ROOK)))
}

#[test]
fn rights_stay_with_king_and_rook_through_play() {
    // always play the first legal move; the rights must keep matching the board
    let mut b = Board::new();
    for _ in 0..40 {
        assert!(rights_match_home_squares(&b));
        if let Some((_, ey)) = b.en_passant {
            assert!(1 <= ey && ey <= 6);
        }
        let moves = b.generate_legal_moves(b.side_to_move);
        if moves.is_empty() {
            break;
        }
        b.apply_move(&moves[moves.len() / 2]);
    }
    assert!(rights_match_home_squares(&b));
}

#[test]
fn start_moves_come_in_generation_order() {
    // piece by piece (pawns file by file, then the back rank), each piece's
    // moves in its own order: single step before double step, knight jumps
    // in offset order
    let b = Board::new();
    let moves = b.generate_legal_moves(WHITE);
    let got: Vec<(i32, i32, i32, i32)> = moves.iter().map(|m| (m.fx, m.fy, m.tx, m.ty)).collect();
    let mut expected = Vec::new();
    for x in 0..8 {
        expected.push((x, 1, x, 2));
        expected.push((x, 1, x, 3));
    }
    expected.push((1, 0, 2, 2));
    expected.push((1, 0, 0, 2));
    expected.push((6, 0, 7, 2));
    expected.push((6, 0, 5, 2));
    assert_eq!(got, expected);
}

fn living_kings(b: &Board, c: i32) -> usize {
    b.pieces.iter().filter(|p| p.alive && p.ptype == KING && p.color == c).count()
}

#[test]
fn positions_of_play_stay_in_game() {
    // play the last legal move each time; every position keeps one king per
    // colour, the side not to move out of check, and an en-passant square
    // behind the pawn that stepped two ranks, and lists distinct legal moves
    let mut b = Board::new();
    for _ in 0..60 {
        assert_eq!(living_kings(&b, WHITE), 1);
        assert_eq!(living_kings(&b, BLACK), 1);
        assert!(!b.is_in_check(-b.side_to_move));
        if let Some((ex, ey)) = b.en_passant {
            let mover = -b.side_to_move;
            let behind = ey + if mover == WHITE { 1 } else { -1 };
            let p = b.get_piece(ex, behind).expect("pawn behind the en-passant square");
            assert!(p.ptype == PAWN && p.color == mover);
        }
        let moves = b.generate_legal_moves(b.side_to_move);
        for i in 0..moves.len() {
            for j in 0..i {
                assert_ne!(moves[i], moves[j]);
            }
        }
        if moves.is_empty() {
            break;
        }
        let m = moves[moves.len() - 1];
        let live_before = b.pieces.iter().filter(|p| p.alive).count();
        let captures = m.is_en_passant || b.get_piece(m.tx, m.ty).is_some();
        let n_before = b.pieces.len();
        b.apply_move(&m);
        let live_after = b.pieces.iter().filter(|p| p.alive).count();
        assert_eq!(b.pieces.len(), n_before);
        assert_eq!(live_after, live_before - if captures { 1 } else { 0 });
    }
}

#[test]
fn move_from_empty_square_ignores_target_and_clocks() {
    let mut b = Board::new();
    b.halfmove = u32::MAX;
    b.fullmove = u32::MAX;
    let before = b.position_hash();
    b.apply_move(&Move::new(4, 3, 20, -5));
    assert_eq!(b.position_hash(), before);
    assert_eq!(b.halfmove, u32::MAX);
    assert_eq!(b.fullmove, u32::MAX);
    assert_eq!(b.side_to_move, WHITE);
}

#[test]
fn squares_agree_detects_a_stray_id() {
    let mut b = Board::new();
    assert!(b.squares_agree());
    b.apply_move(&Move::new(6, 0, 5, 2));
    assert!(b.squares_agree());
    b.board[4][4] = 1; // id of the a2 pawn on an empty square
    assert!(!b.squares_agree());
}

#[test]
fn indices_in_range_checks_ids_and_piece_squares() {
    let mut b = Board::new();
    assert!(b.indices_in_range());
    b.board[4][4] = 33; // no piece has id 33
    assert!(!b.indices_in_range());
    let mut c = Board::new();
    c.pieces[0].x = 8; // a living piece off the board
    assert!(!c.indices_in_range());
    c.pieces[0].alive = false; // a captured piece may lie anywhere
    assert!(c.indices_in_range());
}

#[test]
fn castling_right_with_king_away_moves_the_home_piece() {
    let mut b = Board::empty();
    b.add_piece(KING, WHITE, 3, 0); // d1
    b.add_piece(KNIGHT, WHITE, 4, 0); // e1
    b.add_piece(ROOK, WHITE, 7, 0); // h1
    b.add_piece(KING, BLACK, 0, 7); // a8
    b.castling = CASTLE_WK;
    let oo = Move { fx: 4, fy: 0, tx: 6, ty: 0, promotion: 0, is_en_passant: false, is_castle: true };
    assert!(has(&b.generate_legal_moves(WHITE), oo));
    b.apply_move(&oo);
    assert_eq!(b.board[0][4], 0);
    assert_eq!(b.board[0][6], 2); // the knight
    assert_eq!(b.board[0][5], 3); // the rook
    assert_eq!(b.board[0][7], 0);
    assert_eq!(b.board[0][3], 1); // the king stays
    assert!(b.indices_in_range() && b.squares_agree());
    // Only a king move or a rook leaving its corner drops a right.
    assert_eq!(b.castling, CASTLE_WK);
}
