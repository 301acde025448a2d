use ffce_engine::board::Board;
use ffce_engine::constants::{BISHOP, BLACK, KNIGHT, PAWN, QUEEN, ROOK, WHITE};
use ffce_engine::fields::{
    is_passed, king_zone_ring, life_step, path_squares, pawn_attack_map, pawn_run, piece_mobility, piece_targets,
    reach_squares,
};

#[test]
fn paths_of_moves() {
    assert_eq!(path_squares(0, 0, 0, 3), vec![(0, 1), (0, 2), (0, 3)]);
    assert_eq!(path_squares(2, 2, 0, 0), vec![(1, 1), (0, 0)]);
    assert_eq!(path_squares(1, 0, 2, 2), vec![(2, 2)]);
    assert_eq!(path_squares(3, 3, 3, 3), vec![(3, 3)]);
    assert_eq!(path_squares(7, 4, 4, 4), vec![(6, 4), (5, 4), (4, 4)]);
}

#[test]
fn targets_of_pieces() {
    let mut b = Board::empty();
    b.add_piece(ROOK, WHITE, 0, 0);
    b.add_piece(PAWN, WHITE, 0, 2);
    b.add_piece(KNIGHT, BLACK, 2, 0);
    b.add_piece(PAWN, BLACK, 4, 4);
    let rook = b.pieces[0].clone();
    // Trace: up the file stops before the own pawn; along the rank up to and
    // including the enemy knight.
    assert_eq!(piece_targets(&b, &rook, WHITE, false), vec![(1, 0), (2, 0), (0, 1)]);
    // Future: the first occupied square counts whatever it holds.
    assert_eq!(piece_targets(&b, &rook, WHITE, true), vec![(1, 0), (2, 0), (0, 1), (0, 2)]);
    let pawn = b.pieces[3].clone();
    assert_eq!(piece_targets(&b, &pawn, BLACK, false), vec![(3, 3), (5, 3)]);
    assert_eq!(piece_targets(&b, &pawn, BLACK, true), vec![(4, 3), (3, 3), (5, 3)]);
    let knight = b.pieces[2].clone();
    assert_eq!(piece_targets(&b, &knight, BLACK, false), vec![(3, 2), (4, 1), (1, 2), (0, 1)]);
}

#[test]
fn mobility_counts() {
    let b = Board::new();
    assert_eq!(piece_mobility(&b, b.piece(19)), 2); // b1 knight: a3, c3
    assert_eq!(piece_mobility(&b, b.piece(17)), 2); // a1 rook sees a2 and b1
    assert_eq!(piece_mobility(&b, b.piece(1)), 0); // pawns count nothing
    let mut e = Board::empty();
    e.add_piece(QUEEN, WHITE, 3, 3);
    assert_eq!(piece_mobility(&e, e.piece(1)), 27);
    e.add_piece(BISHOP, BLACK, 0, 0);
    assert_eq!(piece_mobility(&e, e.piece(2)), 3); // a1..c3, then the queen on d4
}

#[test]
fn pawn_cover() {
    let b = Board::new();
    let w = pawn_attack_map(&b, WHITE);
    let k = pawn_attack_map(&b, BLACK);
    for x in 0..8 {
        assert!(w[2][x]);
        assert!(k[5][x]);
        assert!(!w[3][x]);
    }
    let mut e = Board::empty();
    e.add_piece(PAWN, WHITE, 0, 1);
    let m = pawn_attack_map(&e, WHITE);
    assert!(m[2][1]);
    assert!(!m[2][0]);
}

#[test]
fn king_rings() {
    let r = king_zone_ring(4, 0);
    assert_eq!(r[0][4], 0);
    assert_eq!(r[1][3], 1);
    assert_eq!(r[0][5], 1);
    assert_eq!(r[2][6], 2);
    assert_eq!(r[0][2], 2);
    assert_eq!(r[3][4], 0);
    assert_eq!(r[0][7], 0);
}

#[test]
fn life_generation() {
    // A blinker turns from horizontal to vertical.
    let mut g = [[false; 8]; 8];
    g[3][2] = true;
    g[3][3] = true;
    g[3][4] = true;
    let n = life_step(&g);
    let mut expect = [[false; 8]; 8];
    expect[2][3] = true;
    expect[3][3] = true;
    expect[4][3] = true;
    assert_eq!(n, expect);
    // A block is stable.
    let mut blk = [[false; 8]; 8];
    blk[0][0] = true;
    blk[0][1] = true;
    blk[1][0] = true;
    blk[1][1] = true;
    assert_eq!(life_step(&blk), blk);
}

#[test]
fn paths_far_off_the_board() {
    let p = path_squares(-5000, 3, -4997, 3);
    assert_eq!(p, vec![(-4999, 3), (-4998, 3), (-4997, 3)]);
    let q = path_squares(1_000_000, 0, 999_998, 2);
    assert_eq!(q, vec![(999_999, 1), (999_998, 2)]);
    assert_eq!(path_squares(i32::MAX, 0, i32::MAX - 1, 5), vec![(i32::MAX - 1, 5)]);
}

#[test]
fn king_far_away_has_no_ring_on_the_board() {
    assert_eq!(king_zone_ring(100, -100), [[0u8; 8]; 8]);
    let r = king_zone_ring(-2, 3);
    assert_eq!(r[3][0], 2);
    assert_eq!(r[3][1], 0);
}

#[test]
fn trace_targets_lie_within_future_targets() {
    let mut b = Board::new();
    b.apply_move(&ffce_engine::board::Move::new(4, 1, 4, 3));
    b.apply_move(&ffce_engine::board::Move::new(3, 6, 3, 4));
    for p in b.pieces.clone().iter().filter(|p| p.alive) {
        let t = piece_targets(&b, p, p.color, false);
        let f = piece_targets(&b, p, p.color, true);
        for sq in &f {
            assert!(0 <= sq.0 && sq.0 < 8 && 0 <= sq.1 && sq.1 < 8);
        }
        for sq in &t {
            assert!(f.contains(sq));
        }
        for sq in f.iter().filter(|sq| !t.contains(sq)) {
            if p.ptype == PAWN {
                let dir = if p.color == WHITE { 1 } else { -1 };
                assert_eq!(*sq, (p.x, p.y + dir));
            } else {
                let q = b.get_piece(sq.0, sq.1).expect("own blocker");
                assert_eq!(q.color, p.color);
            }
        }
    }
}

#[test]
fn reach_squares_of_pieces() {
    let mut b = Board::empty();
    b.add_piece(PAWN, WHITE, 3, 3);
    b.add_piece(PAWN, BLACK, 4, 4);
    b.add_piece(PAWN, BLACK, 2, 4);
    b.add_piece(ROOK, WHITE, 0, 0);
    b.add_piece(KNIGHT, WHITE, 0, 2);
    let pawn = b.pieces[0];
    assert_eq!(reach_squares(&b, &pawn, WHITE), vec![(3, 4), (2, 4), (4, 4)]);
    let rook = b.pieces[3];
    // up the a-file to the own knight (excluded), then along the first rank
    assert_eq!(reach_squares(&b, &rook, WHITE), vec![(1, 0), (2, 0), (3, 0), (4, 0), (5, 0), (6, 0), (7, 0), (0, 1)]);
    let knight = b.pieces[4];
    assert_eq!(reach_squares(&b, &knight, WHITE), vec![(1, 4), (2, 3), (1, 0), (2, 1)]);
}

#[test]
fn pawn_runs_and_passed_pawns() {
    let mut b = Board::empty();
    b.add_piece(PAWN, WHITE, 3, 2);
    b.add_piece(KNIGHT, BLACK, 3, 5);
    b.add_piece(PAWN, BLACK, 6, 6);
    b.add_piece(PAWN, WHITE, 6, 1);
    let p = b.pieces[0];
    assert_eq!(pawn_run(&b, &p), (vec![(3, 3), (3, 4)], false));
    assert!(is_passed(&b, &p));
    let q = b.pieces[3];
    assert_eq!(pawn_run(&b, &q), (vec![(6, 2), (6, 3), (6, 4), (6, 5)], false));
    assert!(!is_passed(&b, &q));
    let r = b.pieces[2];
    assert!(!is_passed(&b, &r));
    assert_eq!(pawn_run(&b, &r), (vec![(6, 5), (6, 4), (6, 3), (6, 2)], false));
    let mut e = Board::empty();
    e.add_piece(PAWN, BLACK, 0, 3);
    let s = e.pieces[0];
    assert_eq!(pawn_run(&e, &s), (vec![(0, 2), (0, 1), (0, 0)], true));
    assert!(is_passed(&e, &s));
}
