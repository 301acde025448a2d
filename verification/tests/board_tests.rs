use ffce_engine::board::{Board, Move};
use ffce_engine::constants::{BISHOP, BLACK, KING, QUEEN, ROOK, WHITE};

fn perft(board: &Board, depth: u32) -> u64 {
    if depth == 0 {
        return 1;
    }
    let mut nodes = 0u64;
    for m in board.generate_legal_moves(board.side_to_move) {
        let mut child = board.clone();
        child.apply_move(&m);
        nodes += perft(&child, depth - 1);
    }
    nodes
}

#[test]
fn perft_depth_1() {
    let b = Board::new();
    assert_eq!(perft(&b, 1), 20);
}

#[test]
fn perft_depth_2() {
    let b = Board::new();
    assert_eq!(perft(&b, 2), 400);
}

#[test]
fn perft_depth_3() {
    let b = Board::new();
    assert_eq!(perft(&b, 3), 8902);
}

#[test]
fn perft_depth_4() {
    let b = Board::new();
    assert_eq!(perft(&b, 4), 197281);
}

#[test]
fn start_position_has_two_kings() {
    let b = Board::new();
    assert!(b.find_king(WHITE).is_some());
    assert!(b.find_king(BLACK).is_some());
}

#[test]
fn trapped_king_is_genuine_stalemate() {
    let mut b = Board::empty();
    // files a..h = x 0..7, ranks 1..8 = y 0..7
    b.add_piece(QUEEN, WHITE, 2, 7); // Qc8
    b.add_piece(ROOK, WHITE, 1, 2); // Rb3 (covers b-file incl. b6)
    b.add_piece(BISHOP, WHITE, 4, 1); // Be2 (covers a6 too)
    b.add_piece(KING, WHITE, 7, 0); // wKh1 (just to be a valid position)
    b.add_piece(KING, BLACK, 0, 6); // bKa7
    b.side_to_move = BLACK;

    assert!(
        !b.is_in_check(BLACK),
        "black king must not be in check (else it'd be checkmate, not stalemate)"
    );
    assert!(
        b.generate_legal_moves(BLACK).is_empty(),
        "black must have no legal moves: a8/b8/b7/a6 covered by queen+bishop, b6 by rook"
    );
}

#[test]
fn hash_changes_on_move_and_returns_on_dance() {
    let mut b = Board::new();
    let start = b.position_hash();
    b.apply_move(&Move::new(4, 1, 4, 3)); // e2-e4
    assert_ne!(b.position_hash(), start);
    // A full knight "dance" back to the initial position must hash equal.
    let mut d = Board::new();
    for (fx, fy, tx, ty) in [(1, 0, 2, 2), (1, 7, 2, 5), (2, 2, 1, 0), (2, 5, 1, 7)] {
        d.apply_move(&Move::new(fx, fy, tx, ty));
    }
    assert_eq!(d.position_hash(), Board::new().position_hash());
}
