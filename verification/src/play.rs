//! Laws of legal play: from the start position, playing legal moves of the
//! side to move never captures a king and keeps every position in play, and
//! the moves generated in such positions are pairwise distinct.

use vstd::prelude::*;
use crate::constants::{
    on_board, knight_off, king_off, bishop_dir, rook_dir, slider_dir, slider_dir_count, WHITE, BLACK,
    PAWN, KNIGHT, BISHOP, ROOK, QUEEN, KING,
};
use crate::board::{BoardModel, Move, Piece, shift, jump_off, pawn_dir, initial_model, initial_piece};
use crate::laws::{lemma_pseudo_facts, lemma_play_stays_in_play, lemma_initial_in_play, in_play};

verus! {

/// The knight jump opposite to jump `j`.
proof fn lemma_knight_back(j: int) -> (k: int)
    requires
        0 <= j < 8,
    ensures
        0 <= k < 8,
        knight_off(k).0 == -knight_off(j).0,
        knight_off(k).1 == -knight_off(j).1,
{
    if j == 0 { 6 } else if j == 1 { 7 } else if j == 2 { 4 } else if j == 3 { 5 }
    else if j == 4 { 2 } else if j == 5 { 3 } else if j == 6 { 0 } else { 1 }
}

/// The king step opposite to step `j`.
proof fn lemma_king_back(j: int) -> (k: int)
    requires
        0 <= j < 8,
    ensures
        0 <= k < 8,
        king_off(k).0 == -king_off(j).0,
        king_off(k).1 == -king_off(j).1,
{
    7 - j
}

/// The direction opposite to a slider direction, among the diagonals when
/// it is diagonal and among the orthogonals otherwise.
proof fn lemma_dir_back(t: u8, j: int) -> (k: int)
    requires
        t == BISHOP || t == ROOK || t == QUEEN,
        0 <= j < slider_dir_count(t),
    ensures
        0 <= k < 4,
        slider_dir(t, j).0 != 0 && slider_dir(t, j).1 != 0 ==> {
            &&& bishop_dir(k).0 == -slider_dir(t, j).0
            &&& bishop_dir(k).1 == -slider_dir(t, j).1
            &&& (t == BISHOP || t == QUEEN)
        },
        !(slider_dir(t, j).0 != 0 && slider_dir(t, j).1 != 0) ==> {
            &&& rook_dir(k).0 == -slider_dir(t, j).0
            &&& rook_dir(k).1 == -slider_dir(t, j).1
            &&& (t == ROOK || t == QUEEN)
        },
{
    let i = if t == QUEEN && j >= 4 { j - 4 } else { j };
    if t == BISHOP || (t == QUEEN && j < 4) {
        3 - i
    } else if i == 0 {
        1
    } else if i == 1 {
        0
    } else if i == 2 {
        3
    } else {
        2
    }
}

/// Piece `k` is the only living king of colour `c`.
pub open spec fn sole_king(b: BoardModel, c: i32, k: int) -> bool {
    &&& 0 <= k < b.pieces.len()
    &&& b.pieces[k].alive && b.pieces[k].ptype == KING && b.pieces[k].color == c
    &&& forall|j: int| 0 <= j < b.pieces.len() && #[trigger] b.pieces[j].alive
            && b.pieces[j].ptype == KING && b.pieces[j].color == c ==> j == k
}

/// The king of colour `c` that `king_pos` finds is its only living king.
proof fn lemma_sole_king_pos(b: BoardModel, c: i32, k: int, i: int)
    requires
        sole_king(b, c, k),
        0 <= i <= k,
    ensures
        b.king_from(c, i) == Some((b.pieces[k].x, b.pieces[k].y)),
    decreases k - i,
{
    if i < k {
        lemma_sole_king_pos(b, c, k, i + 1);
        let p = b.pieces[i];
        if p.alive && p.ptype == KING && p.color == c {
            assert(i == k);
        }
    }
}

/// An occupied square that a pseudo-legal move of colour `c` lands on,
/// other than by en passant, is attacked by `c`.
proof fn lemma_capture_is_attack(b: BoardModel, c: i32, m: Move)
    requires
        b.wf(),
        b.pseudo_move(c, m),
        !m.is_en_passant,
        b.sq(m.tx as int, m.ty as int) != 0,
    ensures
        b.attacked(m.tx as int, m.ty as int, c),
{
    let i = choose|i: int| 0 <= i < b.pieces.len() && #[trigger] b.gen(i, c, m);
    let p = b.pieces[i];
    let (x, y) = (p.x as int, p.y as int);
    let (tx, ty) = (m.tx as int, m.ty as int);
    assert(on_board(x, y));
    assert(b.sq(x, y) == i + 1);
    assert(b.at(x, y) == p);
    assert(b.holds(x, y, c, p.ptype));
    if p.ptype == PAWN {
        assert(b.pawn_capture(x, y, c, -1, m) || b.pawn_capture(x, y, c, 1, m));
        assert(b.pawn_attack(tx, ty, c));
    } else if p.ptype == KNIGHT || (p.ptype == KING && b.jump_move(x, y, c, KING, m)) {
        let j = choose|j: int| 0 <= j < 8 && #[trigger] b.step_move(
            x, y, c, jump_off(p.ptype, j).0 as int, jump_off(p.ptype, j).1 as int, m);
        if p.ptype == KNIGHT {
            let k = lemma_knight_back(j);
            assert(b.holds(tx + knight_off(k).0, ty + knight_off(k).1, c, KNIGHT));
            assert(b.knight_attack(tx, ty, c));
        } else {
            let k = lemma_king_back(j);
            assert(b.holds(tx + king_off(k).0, ty + king_off(k).1, c, KING));
            assert(b.king_attack(tx, ty, c));
        }
    } else if p.ptype == KING {
        // castling lands on an empty square
        assert(b.castle_move(c, m));
        assert(false);
    } else {
        let j = choose|j: int| 0 <= j < slider_dir_count(p.ptype)
            && #[trigger] b.ray_move(x, y, c, slider_dir(p.ptype, j), m);
        let d = slider_dir(p.ptype, j);
        let n = choose|n: int| #[trigger] b.ray_target(x, y, c, d, n, m);
        let k = lemma_dir_back(p.ptype, j);
        let back: (i32, i32) = if d.0 != 0 && d.1 != 0 { bishop_dir(k) } else { rook_dir(k) };
        assert(back.0 == -d.0 && back.1 == -d.1);
        assert forall|l: int| 1 <= l < n implies {
            &&& on_board(#[trigger] shift(tx, back.0 as int, l), shift(ty, back.1 as int, l))
            &&& b.sq(shift(tx, back.0 as int, l), shift(ty, back.1 as int, l)) == 0
        } by {
            assert(shift(tx, back.0 as int, l) == shift(x, d.0 as int, n - l));
            assert(shift(ty, back.1 as int, l) == shift(y, d.1 as int, n - l));
            assert(on_board(shift(x, d.0 as int, n - l), shift(y, d.1 as int, n - l)));
        }
        assert(b.ray_clear(tx, ty, back, n));
        assert(shift(tx, back.0 as int, n) == x && shift(ty, back.1 as int, n) == y);
        if d.0 != 0 && d.1 != 0 {
            assert(b.ray_attack(tx, ty, bishop_dir(k), c, BISHOP, QUEEN));
            assert(b.diagonal_attack(tx, ty, c));
        } else {
            assert(b.ray_attack(tx, ty, rook_dir(k), c, ROOK, QUEEN));
            assert(b.orthogonal_attack(tx, ty, c));
        }
    }
}

/// Piece `j` is a living king of colour `kc`.
pub open spec fn king_of(b: BoardModel, j: int, kc: i32) -> bool {
    b.pieces[j].alive && b.pieces[j].ptype == KING && b.pieces[j].color == kc
}

/// A pseudo-legal move that captures no king leaves every piece's status as
/// a living king of a colour as it was.
proof fn lemma_king_status_kept(b: BoardModel, c: i32, m: Move, kc: i32, j: int)
    requires
        b.wf(),
        b.castle_sane(),
        b.pseudo_move(c, m),
        b.captured_type(m) != KING,
        0 <= j < b.pieces.len(),
    ensures
        b.applied(m).pieces.len() == b.pieces.len(),
        king_of(b.applied(m), j, kc) == king_of(b, j, kc),
{
    lemma_pseudo_facts(b, c, m);
    let (fx, fy, tx, ty) = (m.fx as int, m.fy as int, m.tx as int, m.ty as int);
    let id = b.sq(fx, fy);
    let mover = b.pieces[id - 1];
    let color = mover.color;
    let b1 = b.after_capture(m);
    let b2 = b1.after_relocate(m, id);
    let b3 = b2.after_castle_rook(m, color);
    let r = b.applied(m);
    assert(r.pieces == b3.pieces);
    assert(mover.x == fx && mover.y == fy && mover.alive);
    // the captured piece, if any, is another piece and no king
    match b.capture_square(m) {
        Some((cx, cy)) => {
            let q = b.sq(cx, cy);
            assert(b.pieces[q - 1].x == cx && b.pieces[q - 1].y == cy);
            assert(!(cx == fx && cy == fy));
            assert(q != id);
            assert(b.pieces[q - 1].ptype != KING);
        },
        None => {},
    }
    assert(b1.pieces.len() == b.pieces.len());
    assert(b1.pieces[id - 1] == mover);
    assert(forall|i: int| 0 <= i < b.pieces.len() ==> king_of(b1, i, kc) == king_of(b, i, kc));
    // the mover keeps its colour and stays a king exactly when it was one
    let moved = b2.pieces[id - 1];
    assert(moved.alive && moved.color == mover.color);
    assert(moved.ptype == KING <==> mover.ptype == KING);
    assert(forall|i: int| 0 <= i < b.pieces.len() ==> king_of(b2, i, kc) == king_of(b1, i, kc));
    // a castling rook moves and stays a rook
    if m.is_castle {
        assert(b1 == b);
        let ry: int = if color == WHITE { 0 } else { 7 };
        let rf: int = if m.tx == 6 { 7 } else { 0 };
        assert(b.castle_move(c, m));
        assert(b.holds(rf, ry, color, ROOK));
        let rid = b2.sq(rf, ry);
        assert(rid == b.sq(rf, ry));
        assert(b.pieces[rid - 1].x == rf && b.pieces[rid - 1].y == ry);
        assert(rid != id);
        assert(b2.pieces[rid - 1] == b.pieces[rid - 1]);
        assert(b2.pieces[rid - 1].ptype == ROOK);
    }
    assert(forall|i: int| 0 <= i < b.pieces.len() ==> king_of(b3, i, kc) == king_of(b2, i, kc));
    assert(king_of(r, j, kc) == king_of(b3, j, kc));
}

/// A pseudo-legal move that captures no king keeps the only king of a colour.
proof fn lemma_sole_king_kept(b: BoardModel, c: i32, m: Move, kc: i32, k: int)
    requires
        b.wf(),
        b.castle_sane(),
        b.pseudo_move(c, m),
        b.captured_type(m) != KING,
        sole_king(b, kc, k),
    ensures
        sole_king(b.applied(m), kc, k),
{
    let r = b.applied(m);
    lemma_king_status_kept(b, c, m, kc, k);
    assert forall|j: int| 0 <= j < r.pieces.len() && #[trigger] r.pieces[j].alive
        && r.pieces[j].ptype == KING && r.pieces[j].color == kc implies j == k by {
        lemma_king_status_kept(b, c, m, kc, j);
        assert(king_of(b, j, kc));
    }
}

/// The en-passant square, if any, lies just behind a pawn of the side not to
/// move: the pawn that has just made its double step.
pub open spec fn ep_behind_pawn(b: BoardModel) -> bool {
    let o = (-b.side_to_move) as i32;
    match b.en_passant {
        Some((ex, ey)) => b.holds(ex as int, ey + pawn_dir(o), o, PAWN),
        None => true,
    }
}

/// A position of a game: in play, White or Black to move, exactly one
/// living king of each colour, the side not to move not in check, and an
/// en-passant square behind the pawn that made the double step.
pub open spec fn in_game(b: BoardModel) -> bool {
    &&& in_play(b)
    &&& (b.side_to_move == WHITE || b.side_to_move == BLACK)
    &&& (exists|k: int| sole_king(b, WHITE, k))
    &&& (exists|k: int| sole_king(b, BLACK, k))
    &&& !b.in_check((-b.side_to_move) as i32)
    &&& ep_behind_pawn(b)
}

/// In a game, a legal move of the side to move never captures a king.
proof fn lemma_no_king_captured(b: BoardModel, m: Move)
    requires
        in_game(b),
        b.legal_move(b.side_to_move, m),
    ensures
        b.captured_type(m) != KING,
{
    let s = b.side_to_move;
    let o = (-s) as i32;
    lemma_pseudo_facts(b, s, m);
    let (tx, ty) = (m.tx as int, m.ty as int);
    if m.is_en_passant {
        assert(ep_behind_pawn(b));
        assert(b.mover_color(m) == s);
        assert(pawn_dir(o) == -pawn_dir(s));
        assert(b.holds(tx, ty + pawn_dir(o), o, PAWN));
        assert(b.capture_square(m) == Some((tx, ty - pawn_dir(s))));
    } else if b.sq(tx, ty) != 0 && b.at(tx, ty).ptype == KING {
        let q = b.sq(tx, ty) - 1;
        assert(b.at(tx, ty).color == o);
        assert(king_of(b, q, o));
        let k = choose|k: int| sole_king(b, o, k);
        assert(b.pieces[q].alive && b.pieces[q].ptype == KING && b.pieces[q].color == o);
        assert(q == k);
        lemma_sole_king_pos(b, o, k, 0);
        assert(b.pieces[q].x == tx && b.pieces[q].y == ty);
        lemma_capture_is_attack(b, s, m);
        assert((-o) as i32 == s);
        assert(b.in_check(o));
    }
}

/// Games go on as games: a legal move of the side to move in a game captures
/// no king and gives a position of a game.
pub proof fn lemma_legal_play_stays_in_game(b: BoardModel, m: Move)
    requires
        in_game(b),
        b.legal_move(b.side_to_move, m),
    ensures
        b.captured_type(m) != KING,
        in_game(b.applied(m)),
{
    let s = b.side_to_move;
    let r = b.applied(m);
    lemma_no_king_captured(b, m);
    lemma_pseudo_facts(b, s, m);
    lemma_play_stays_in_play(b, s, m);
    assert(r.side_to_move == -s);
    let kw = choose|k: int| sole_king(b, WHITE, k);
    let kb = choose|k: int| sole_king(b, BLACK, k);
    lemma_sole_king_kept(b, s, m, WHITE, kw);
    lemma_sole_king_kept(b, s, m, BLACK, kb);
    assert((-r.side_to_move) as i32 == s);
    // the en-passant square after a double step lies behind the pawn that made it
    let (fx, fy, tx, ty) = (m.fx as int, m.fy as int, m.tx as int, m.ty as int);
    let id = b.sq(fx, fy);
    let mover = b.pieces[id - 1];
    if mover.ptype == PAWN && (ty - fy == 2 || ty - fy == -2) {
        assert(b.at(fx, fy) == mover);
        let b1 = b.after_capture(m);
        assert(b.capture_square(m) == None::<(int, int)>);
        assert(b1 == b);
        let b2 = b1.after_relocate(m, id);
        assert(b2.after_castle_rook(m, mover.color) == b2);
        assert(r.squares == b2.squares && r.pieces == b2.pieces);
        assert(r.sq(tx, ty) == id);
        assert(r.pieces[id - 1].ptype == PAWN && r.pieces[id - 1].color == s && r.pieces[id - 1].alive);
        assert(r.en_passant == Some((m.fx, ((m.fy + m.ty) / 2) as i32)));
        assert((m.fy + m.ty) / 2 + pawn_dir(s) == ty);
        assert(r.holds(tx, ty, s, PAWN));
    }
}

/// No ray attack comes along `d` when the first square along it is off the
/// board or holds a piece not of colour `c`.
proof fn lemma_first_square_blocks(b: BoardModel, x: int, y: int, d: (i32, i32), c: i32, t1: u8, t2: u8)
    requires
        on_board(shift(x, d.0 as int, 1), shift(y, d.1 as int, 1)) ==> {
            let (px, py) = (shift(x, d.0 as int, 1), shift(y, d.1 as int, 1));
            b.sq(px, py) != 0 && b.at(px, py).color != c
        },
    ensures
        !b.ray_attack(x, y, d, c, t1, t2),
{
    if b.ray_attack(x, y, d, c, t1, t2) {
        let n = choose|n: int| n >= 1 && #[trigger] b.ray_clear(x, y, d, n) && {
            let px = shift(x, d.0 as int, n);
            let py = shift(y, d.1 as int, n);
            b.holds(px, py, c, t1) || b.holds(px, py, c, t2)
        };
        if n > 1 {
            assert(on_board(shift(x, d.0 as int, 1), shift(y, d.1 as int, 1)));
        }
    }
}

/// The start position is a position of a game.
pub proof fn lemma_start_is_in_game()
    ensures
        in_game(initial_model()),
{
    let b = initial_model();
    lemma_initial_in_play();
    // one king each: pieces 24 (white) and 25 (black)
    assert(b.pieces[24] == initial_piece(24) && b.pieces[25] == initial_piece(25));
    assert forall|j: int| 0 <= j < b.pieces.len() && #[trigger] b.pieces[j].alive
        && b.pieces[j].ptype == KING && b.pieces[j].color == WHITE implies j == 24 by {
        assert(b.pieces[j] == initial_piece(j));
    }
    assert forall|j: int| 0 <= j < b.pieces.len() && #[trigger] b.pieces[j].alive
        && b.pieces[j].ptype == KING && b.pieces[j].color == BLACK implies j == 25 by {
        assert(b.pieces[j] == initial_piece(j));
    }
    assert(sole_king(b, WHITE, 24));
    assert(sole_king(b, BLACK, 25));
    lemma_sole_king_pos(b, BLACK, 25, 0);
    // every square next to the black king's file on ranks 7 and 8 holds a black piece
    assert forall|x: int, y: int| 0 <= x < 8 && (y == 6 || y == 7) implies
        #[trigger] b.sq(x, y) != 0 && b.at(x, y).color == BLACK && b.at(x, y).ptype != KNIGHT
            || y == 7 && (x == 1 || x == 6) by {
        let i = b.sq(x, y) - 1;
        assert(b.pieces[i] == initial_piece(i));
    }
    assert forall|x: int, y: int| 0 <= x < 8 && 2 <= y < 6 implies #[trigger] b.sq(x, y) == 0 by {}
    // the black king on (4, 7) is not attacked by White
    assert(!b.pawn_attack(4, 7, WHITE));
    assert forall|k: int| 0 <= k < 8 implies !#[trigger] b.holds(
        4 + knight_off(k).0, 7 + knight_off(k).1, WHITE, KNIGHT) by {}
    assert(!b.knight_attack(4, 7, WHITE));
    assert forall|k: int| 0 <= k < 8 implies !#[trigger] b.holds(
        4 + king_off(k).0, 7 + king_off(k).1, WHITE, KING) by {}
    assert(!b.king_attack(4, 7, WHITE));
    assert forall|k: int| 0 <= k < 4 implies !#[trigger] b.ray_attack(4, 7, bishop_dir(k), WHITE, BISHOP, QUEEN) by {
        lemma_first_square_blocks(b, 4, 7, bishop_dir(k), WHITE, BISHOP, QUEEN);
    }
    assert(!b.diagonal_attack(4, 7, WHITE));
    assert forall|k: int| 0 <= k < 4 implies !#[trigger] b.ray_attack(4, 7, rook_dir(k), WHITE, ROOK, QUEEN) by {
        lemma_first_square_blocks(b, 4, 7, rook_dir(k), WHITE, ROOK, QUEEN);
    }
    assert(!b.orthogonal_attack(4, 7, WHITE));
    assert(!b.in_check(BLACK));
}

/// The position after playing the moves of `ms` in turn from `b`.
pub open spec fn play_line(b: BoardModel, ms: Seq<Move>) -> BoardModel
    decreases ms.len(),
{
    if ms.len() == 0 {
        b
    } else {
        play_line(b, ms.drop_last()).applied(ms.last())
    }
}

/// Each move of `ms` is a legal move of the side to move in the position it is played in.
pub open spec fn legal_line(b: BoardModel, ms: Seq<Move>) -> bool
    decreases ms.len(),
{
    if ms.len() == 0 {
        true
    } else {
        let p = play_line(b, ms.drop_last());
        legal_line(b, ms.drop_last()) && p.legal_move(p.side_to_move, ms.last())
    }
}

/// Every position reached from the start position by legal moves of the
/// side to move is a position of a game: well formed, castling rights with
/// their king and rook at home, the en-passant square behind the pawn that
/// made the double step, one king of each colour, and the side not to move
/// not in check; and the last move captured no king.
pub proof fn lemma_games_stay_in_game(ms: Seq<Move>)
    requires
        legal_line(initial_model(), ms),
    ensures
        in_game(play_line(initial_model(), ms)),
        ms.len() > 0 ==> play_line(initial_model(), ms.drop_last()).captured_type(ms.last()) != KING,
    decreases ms.len(),
{
    if ms.len() == 0 {
        lemma_start_is_in_game();
    } else {
        lemma_games_stay_in_game(ms.drop_last());
        lemma_legal_play_stays_in_game(play_line(initial_model(), ms.drop_last()), ms.last());
    }
}

/// Every move of `s` starts on (x, y).
pub open spec fn all_from(s: Seq<Move>, x: i32, y: i32) -> bool {
    forall|i: int| #![trigger s[i]] 0 <= i < s.len() ==> s[i].fx == x && s[i].fy == y
}

/// The plain move from (x, y) to the square `l` steps along `d`.
pub open spec fn ray_step(x: i32, y: i32, d: (i32, i32), l: int) -> Move {
    Move::plain(x, y, shift(x as int, d.0 as int, l) as i32, shift(y as int, d.1 as int, l) as i32)
}

/// The plain move from (x, y) by jump offset `j`.
pub open spec fn jump_step(x: i32, y: i32, kind: u8, j: int) -> Move {
    Move::plain(x, y, (x + jump_off(kind, j).0) as i32, (y + jump_off(kind, j).1) as i32)
}

/// The moves along a ray are moves to distinct squares at distances `n` and beyond.
proof fn lemma_ray_seq_distinct(b: BoardModel, x: i32, y: i32, c: i32, d: (i32, i32), n: int)
    requires
        d.0 != 0 || d.1 != 0,
        -1 <= d.0 <= 1 && -1 <= d.1 <= 1,
        n >= 1,
    ensures
        b.ray_seq_from(x, y, c, d, n).no_duplicates(),
        forall|i: int| #![trigger b.ray_seq_from(x, y, c, d, n)[i]] 0 <= i < b.ray_seq_from(x, y, c, d, n).len() ==> exists|l: int| #![trigger ray_step(x, y, d, l)]
            n <= l < 9 && b.ray_seq_from(x, y, c, d, n)[i] == ray_step(x, y, d, l)
                && on_board(shift(x as int, d.0 as int, l), shift(y as int, d.1 as int, l)),
    decreases 9 - n,
{
    let s = b.ray_seq_from(x, y, c, d, n);
    if n < 9 {
        lemma_ray_seq_distinct(b, x, y, c, d, n + 1);
        let tx = shift(x as int, d.0 as int, n);
        let ty = shift(y as int, d.1 as int, n);
        let rest = b.ray_seq_from(x, y, c, d, n + 1);
        let head = ray_step(x, y, d, n);
        if on_board(tx, ty) && b.sq(tx, ty) == 0 {
            assert(s == seq![head] + rest);
            assert forall|i: int| #![trigger s[i]] 0 <= i < s.len() implies exists|l: int| #![trigger ray_step(x, y, d, l)]
                n <= l < 9 && s[i] == ray_step(x, y, d, l)
                    && on_board(shift(x as int, d.0 as int, l), shift(y as int, d.1 as int, l)) by {
                if i == 0 {
                    assert(s[0] == ray_step(x, y, d, n));
                } else {
                    assert(s[i] == rest[i - 1]);
                    let l = choose|l: int| #![trigger ray_step(x, y, d, l)]
                        n + 1 <= l < 9 && rest[i - 1] == ray_step(x, y, d, l)
                            && on_board(shift(x as int, d.0 as int, l), shift(y as int, d.1 as int, l));
                    assert(s[i] == ray_step(x, y, d, l));
                }
            }
            assert forall|i: int, j: int| 0 <= i < s.len() && 0 <= j < s.len() && i != j implies s[i] != s[j] by {
                if i > 0 && j > 0 {
                    assert(s[i] == rest[i - 1] && s[j] == rest[j - 1]);
                } else {
                    let o = if i == 0 { j } else { i };
                    assert(s[o] == rest[o - 1]);
                    let l = choose|l: int| #![trigger ray_step(x, y, d, l)]
                        n + 1 <= l < 9 && rest[o - 1] == ray_step(x, y, d, l)
                            && on_board(shift(x as int, d.0 as int, l), shift(y as int, d.1 as int, l));
                    assert(ray_step(x, y, d, l) != ray_step(x, y, d, n));
                }
            }
        } else if on_board(tx, ty) && s.len() > 0 {
            assert(s[0] == ray_step(x, y, d, n));
        }
    }
}

/// `mv` is the jump by one of the first `k` offsets of `kind` from (x, y),
/// onto the board.
pub open spec fn jump_from(x: i32, y: i32, kind: u8, k: int, mv: Move) -> bool {
    exists|j: int| #![trigger jump_step(x, y, kind, j)]
        0 <= j < k && mv == jump_step(x, y, kind, j) && on_board(x + jump_off(kind, j).0, y + jump_off(kind, j).1)
}

/// The jump moves among the first `k` offsets go to distinct squares, each
/// one of those offsets away.
proof fn lemma_jump_seq_distinct(b: BoardModel, x: i32, y: i32, c: i32, kind: u8, k: int)
    requires
        0 <= k <= 8,
    ensures
        b.jump_seq_upto(x, y, c, kind, k).no_duplicates(),
        forall|i: int| 0 <= i < b.jump_seq_upto(x, y, c, kind, k).len()
            ==> jump_from(x, y, kind, k, #[trigger] b.jump_seq_upto(x, y, c, kind, k)[i]),
    decreases k,
{
    if k > 0 {
        lemma_jump_seq_distinct(b, x, y, c, kind, k - 1);
        let prev = b.jump_seq_upto(x, y, c, kind, k - 1);
        let s = b.jump_seq_upto(x, y, c, kind, k);
        let tx = x + jump_off(kind, k - 1).0;
        let ty = y + jump_off(kind, k - 1).1;
        assert forall|i: int| 0 <= i < prev.len() implies jump_from(x, y, kind, k, #[trigger] prev[i]) by {
            assert(jump_from(x, y, kind, k - 1, prev[i]));
            let j = choose|j: int| #![trigger jump_step(x, y, kind, j)]
                0 <= j < k - 1 && prev[i] == jump_step(x, y, kind, j)
                    && on_board(x + jump_off(kind, j).0, y + jump_off(kind, j).1);
            assert(0 <= j < k && prev[i] == jump_step(x, y, kind, j)
                && on_board(x + jump_off(kind, j).0, y + jump_off(kind, j).1));
        }
        if s.len() > prev.len() {
            let e = jump_step(x, y, kind, k - 1);
            assert(s == prev.push(e));
            assert(on_board(tx, ty));
            assert forall|i: int| 0 <= i < prev.len() implies prev[i] != e by {
                assert(jump_from(x, y, kind, k - 1, prev[i]));
                let j = choose|j: int| #![trigger jump_step(x, y, kind, j)]
                    0 <= j < k - 1 && prev[i] == jump_step(x, y, kind, j)
                        && on_board(x + jump_off(kind, j).0, y + jump_off(kind, j).1);
                assert(jump_off(kind, j) != jump_off(kind, k - 1));
            }
            assert forall|i: int| 0 <= i < s.len() implies jump_from(x, y, kind, k, #[trigger] s[i]) by {
                if i < prev.len() {
                    assert(s[i] == prev[i]);
                } else {
                    assert(s[i] == e);
                    assert(0 <= k - 1 < k && s[i] == jump_step(x, y, kind, k - 1)
                        && on_board(x + jump_off(kind, k - 1).0, y + jump_off(kind, k - 1).1));
                }
            }
            assert forall|i: int, j: int| 0 <= i < s.len() && 0 <= j < s.len() && i != j implies s[i] != s[j] by {
                if i < prev.len() && j < prev.len() {
                    assert(s[i] == prev[i] && s[j] == prev[j]);
                }
            }
        } else {
            assert(s == prev);
        }
    }
}

/// Squares on rays in two different directions from one square differ.
proof fn lemma_rays_apart(x: i32, y: i32, d1: (i32, i32), d2: (i32, i32), l1: int, l2: int)
    requires
        -1 <= d1.0 <= 1 && -1 <= d1.1 <= 1 && (d1.0 != 0 || d1.1 != 0),
        -1 <= d2.0 <= 1 && -1 <= d2.1 <= 1 && (d2.0 != 0 || d2.1 != 0),
        d1 != d2,
        l1 >= 1,
        l2 >= 1,
        on_board(shift(x as int, d1.0 as int, l1), shift(y as int, d1.1 as int, l1)),
        on_board(shift(x as int, d2.0 as int, l2), shift(y as int, d2.1 as int, l2)),
    ensures
        ray_step(x, y, d1, l1) != ray_step(x, y, d2, l2),
{
    if ray_step(x, y, d1, l1) == ray_step(x, y, d2, l2) {
        assert(shift(x as int, d1.0 as int, l1) == shift(x as int, d2.0 as int, l2));
        assert(shift(y as int, d1.1 as int, l1) == shift(y as int, d2.1 as int, l2));
    }
}

/// The directions of a sliding piece type are unit steps.
proof fn lemma_slider_dir_unit(t: u8, i: int)
    requires
        t == BISHOP || t == ROOK || t == QUEEN,
        0 <= i < slider_dir_count(t),
    ensures
        -1 <= slider_dir(t, i).0 <= 1 && -1 <= slider_dir(t, i).1 <= 1,
        slider_dir(t, i).0 != 0 || slider_dir(t, i).1 != 0,
{
}

/// Distinct directions of a sliding piece type differ.
proof fn lemma_slider_dirs_differ(t: u8, i: int, j: int)
    requires
        t == BISHOP || t == ROOK || t == QUEEN,
        0 <= i < slider_dir_count(t),
        0 <= j < slider_dir_count(t),
        i != j,
    ensures
        slider_dir(t, i) != slider_dir(t, j),
{
}

/// Move `e` goes from (x, y) to a square of the board on one of the first
/// `k` rays of type `t`.
pub open spec fn on_slide(x: i32, y: i32, t: u8, k: int, e: Move) -> bool {
    exists|j: int, l: int| #![trigger ray_step(x, y, slider_dir(t, j), l)]
        0 <= j < k && 1 <= l < 9 && e == ray_step(x, y, slider_dir(t, j), l)
        && on_board(shift(x as int, slider_dir(t, j).0 as int, l), shift(y as int, slider_dir(t, j).1 as int, l))
}

/// The sliding moves along the first `k` directions go to distinct squares,
/// each on one of those rays.
proof fn lemma_slide_seq_distinct(b: BoardModel, x: i32, y: i32, c: i32, t: u8, k: int)
    requires
        t == BISHOP || t == ROOK || t == QUEEN,
        0 <= k <= slider_dir_count(t),
    ensures
        b.slide_seq_upto(x, y, c, t, k).no_duplicates(),
        forall|i: int| 0 <= i < b.slide_seq_upto(x, y, c, t, k).len()
            ==> #[trigger] on_slide(x, y, t, k, b.slide_seq_upto(x, y, c, t, k)[i]),
    decreases k,
{
    if k > 0 {
        lemma_slide_seq_distinct(b, x, y, c, t, k - 1);
        let a = b.slide_seq_upto(x, y, c, t, k - 1);
        let d = slider_dir(t, k - 1);
        lemma_slider_dir_unit(t, k - 1);
        lemma_ray_seq_distinct(b, x, y, c, d, 1);
        let r = b.ray_seq_from(x, y, c, d, 1);
        let s = b.slide_seq_upto(x, y, c, t, k);
        assert(s == a + r);
        assert forall|i: int, j: int| 0 <= i < a.len() && 0 <= j < r.len() implies a[i] != r[j] by {
            assert(on_slide(x, y, t, k - 1, a[i]));
            assert(r[j] == b.ray_seq_from(x, y, c, d, 1)[j]);
            let (j1, l1) = choose|j1: int, l1: int| #![trigger ray_step(x, y, slider_dir(t, j1), l1)]
                0 <= j1 < k - 1 && 1 <= l1 < 9 && a[i] == ray_step(x, y, slider_dir(t, j1), l1)
                && on_board(shift(x as int, slider_dir(t, j1).0 as int, l1), shift(y as int, slider_dir(t, j1).1 as int, l1));
            let l2 = choose|l2: int| #![trigger ray_step(x, y, d, l2)]
                1 <= l2 < 9 && r[j] == ray_step(x, y, d, l2)
                    && on_board(shift(x as int, d.0 as int, l2), shift(y as int, d.1 as int, l2));
            lemma_slider_dir_unit(t, j1);
            lemma_slider_dirs_differ(t, j1, k - 1);
            lemma_rays_apart(x, y, slider_dir(t, j1), d, l1, l2);
        }
        vstd::seq_lib::lemma_no_dup_in_concat(a, r);
        assert forall|i: int| 0 <= i < s.len() implies #[trigger] on_slide(x, y, t, k, s[i]) by {
            if i < a.len() {
                assert(s[i] == a[i]);
                assert(on_slide(x, y, t, k - 1, a[i]));
                let (j1, l1) = choose|j1: int, l1: int| #![trigger ray_step(x, y, slider_dir(t, j1), l1)]
                    0 <= j1 < k - 1 && 1 <= l1 < 9 && a[i] == ray_step(x, y, slider_dir(t, j1), l1)
                    && on_board(shift(x as int, slider_dir(t, j1).0 as int, l1), shift(y as int, slider_dir(t, j1).1 as int, l1));
                assert(s[i] == ray_step(x, y, slider_dir(t, j1), l1));
            } else {
                assert(s[i] == r[i - a.len()]);
                assert(r[i - a.len()] == b.ray_seq_from(x, y, c, d, 1)[i - a.len()]);
                let l2 = choose|l2: int| #![trigger ray_step(x, y, d, l2)]
                    1 <= l2 < 9 && r[i - a.len()] == ray_step(x, y, d, l2)
                        && on_board(shift(x as int, d.0 as int, l2), shift(y as int, d.1 as int, l2));
                assert(s[i] == ray_step(x, y, slider_dir(t, k - 1), l2));
            }
        }
    }
}

/// The moves of a pawn start on its square and are pairwise distinct.
proof fn lemma_pawn_seq_distinct(b: BoardModel, x: i32, y: i32, c: i32)
    requires
        on_board(x as int, y as int),
    ensures
        b.pawn_seq(x, y, c).no_duplicates(),
        all_from(b.pawn_seq(x, y, c), x, y),
{
    let push = b.pawn_push_seq(x, y, c);
    let left = b.pawn_diag_seq(x, y, c, -1i32);
    let right = b.pawn_diag_seq(x, y, c, 1i32);
    // every move lands on file x (push), x - 1 (left) or x + 1 (right)
    assert forall|i: int| 0 <= i < push.len() implies #[trigger] push[i].fx == x && push[i].fy == y && push[i].tx == x by {}
    assert forall|i: int| 0 <= i < left.len() implies #[trigger] left[i].fx == x && left[i].fy == y && left[i].tx == x - 1 by {}
    assert forall|i: int| 0 <= i < right.len() implies #[trigger] right[i].fx == x && right[i].fy == y && right[i].tx == x + 1 by {}
    assert(push.no_duplicates());
    assert(left.no_duplicates());
    assert(right.no_duplicates());
    vstd::seq_lib::lemma_no_dup_in_concat(push, left);
    assert forall|i: int, j: int| 0 <= i < (push + left).len() && 0 <= j < right.len() implies (push + left)[i] != right[j] by {
        if i < push.len() {
            assert((push + left)[i] == push[i]);
        } else {
            assert((push + left)[i] == left[i - push.len()]);
        }
    }
    vstd::seq_lib::lemma_no_dup_in_concat(push + left, right);
    let all = push + left + right;
    assert(all == b.pawn_seq(x, y, c));
    assert forall|i: int| 0 <= i < all.len() implies #[trigger] all[i].fx == x && all[i].fy == y by {
        if i < push.len() {
            assert(all[i] == push[i]);
        } else if i < push.len() + left.len() {
            assert(all[i] == left[i - push.len()]);
        } else {
            assert(all[i] == right[i - push.len() - left.len()]);
        }
    }
}

/// The castling moves of a colour are pairwise distinct castling moves.
proof fn lemma_castle_seq_distinct(b: BoardModel, c: i32)
    ensures
        b.castle_seq(c).no_duplicates(),
        forall|i: int| 0 <= i < b.castle_seq(c).len() ==> (#[trigger] b.castle_seq(c)[i]).is_castle,
{
}

/// The moves of a piece start on its square and are pairwise distinct, when
/// a king's castling moves start on its square too.
proof fn lemma_piece_seq_distinct(b: BoardModel, p: Piece, c: i32)
    requires
        on_board(p.x as int, p.y as int),
        p.ptype == KING ==> all_from(b.castle_seq(c), p.x, p.y),
    ensures
        b.piece_seq(p, c).no_duplicates(),
        all_from(b.piece_seq(p, c), p.x, p.y),
{
    let (x, y) = (p.x, p.y);
    if p.ptype == PAWN {
        lemma_pawn_seq_distinct(b, x, y, c);
        assert(b.piece_seq(p, c) == b.pawn_seq(x, y, c));
        assert(all_from(b.piece_seq(p, c), x, y));
    } else if p.ptype == KNIGHT || p.ptype == KING {
        lemma_jump_seq_distinct(b, x, y, c, p.ptype, 8);
        let jumps = b.jump_seq_upto(x, y, c, p.ptype, 8);
        assert forall|i: int| 0 <= i < jumps.len() implies #[trigger] jumps[i].fx == x && jumps[i].fy == y
            && !jumps[i].is_castle by {
            assert(jump_from(x, y, p.ptype, 8, jumps[i]));
            let j = choose|j: int| #![trigger jump_step(x, y, p.ptype, j)]
                0 <= j < 8 && jumps[i] == jump_step(x, y, p.ptype, j)
                    && on_board(x + jump_off(p.ptype, j).0, y + jump_off(p.ptype, j).1);
        }
        if p.ptype == KING {
            let cs = b.castle_seq(c);
            lemma_castle_seq_distinct(b, c);
            assert forall|i: int, j: int| 0 <= i < jumps.len() && 0 <= j < cs.len() implies jumps[i] != cs[j] by {
                assert(cs[j].is_castle);
            }
            vstd::seq_lib::lemma_no_dup_in_concat(jumps, cs);
            let all = jumps + cs;
            assert forall|i: int| 0 <= i < all.len() implies #[trigger] all[i].fx == x && all[i].fy == y by {
                if i < jumps.len() {
                    assert(all[i] == jumps[i]);
                } else {
                    assert(all[i] == cs[i - jumps.len()]);
                    assert(all_from(cs, x, y));
                }
            }
            assert(all == b.piece_seq(p, c));
            assert(all_from(b.piece_seq(p, c), x, y));
        } else {
            assert(jumps == b.piece_seq(p, c));
            assert(all_from(b.piece_seq(p, c), x, y));
        }
    } else if p.ptype == BISHOP || p.ptype == ROOK || p.ptype == QUEEN {
        lemma_slide_seq_distinct(b, x, y, c, p.ptype, slider_dir_count(p.ptype));
        let sl = b.slide_seq_upto(x, y, c, p.ptype, slider_dir_count(p.ptype));
        assert forall|i: int| 0 <= i < sl.len() implies #[trigger] sl[i].fx == x && sl[i].fy == y by {
            assert(on_slide(x, y, p.ptype, slider_dir_count(p.ptype), sl[i]));
        }
        assert(sl == b.piece_seq(p, c));
        assert(all_from(b.piece_seq(p, c), x, y));
    } else {
        assert(b.piece_seq(p, c).len() == 0);
    }
}

/// Move `e` starts on the square of a living piece of colour `c` among the first `i`.
pub open spec fn from_piece_upto(b: BoardModel, c: i32, i: int, e: Move) -> bool {
    exists|j: int| #![trigger b.pieces[j]]
        0 <= j < i && b.pieces[j].alive && b.pieces[j].color == c && e.fx == b.pieces[j].x && e.fy == b.pieces[j].y
}

/// Each castling move of colour `c` is one of its two castlings and is available.
proof fn lemma_castle_seq_moves(b: BoardModel, c: i32)
    ensures
        forall|i: int| 0 <= i < b.castle_seq(c).len() ==> {
            let e = #[trigger] b.castle_seq(c)[i];
            &&& b.castle_move(c, e)
            &&& (c == WHITE && (e == crate::board::castle_wk() || e == crate::board::castle_wq())
                || c == BLACK && (e == crate::board::castle_bk() || e == crate::board::castle_bq()))
        },
{
}

/// The pseudo-legal moves of colour `c` of the first `i` pieces start on
/// squares of living pieces of colour `c` among them and are pairwise
/// distinct, when `c` has a single king and castling rights go with it.
proof fn lemma_pseudo_seq_distinct(b: BoardModel, c: i32, k: int, i: int)
    requires
        b.wf(),
        b.castle_sane(),
        sole_king(b, c, k),
        0 <= i <= b.pieces.len(),
    ensures
        b.pseudo_seq(c, i).no_duplicates(),
        forall|n: int| 0 <= n < b.pseudo_seq(c, i).len() ==> #[trigger] from_piece_upto(b, c, i, b.pseudo_seq(c, i)[n]),
    decreases i,
{
    if i > 0 {
        lemma_pseudo_seq_distinct(b, c, k, i - 1);
        let prev = b.pseudo_seq(c, i - 1);
        let p = b.pieces[i - 1];
        let s = b.pseudo_seq(c, i);
        if p.alive && p.color == c {
            assert(on_board(p.x as int, p.y as int));
            assert(b.sq(p.x as int, p.y as int) == i);
            if p.ptype == KING {
                assert(i - 1 == k);
                let cs = b.castle_seq(c);
                lemma_castle_seq_moves(b, c);
                assert forall|n: int| 0 <= n < cs.len() implies #[trigger] cs[n].fx == p.x && cs[n].fy == p.y by {
                    let e = cs[n];
                    let ry: int = if c == WHITE { 0 } else { 7 };
                    assert(b.castle_move(c, e));
                    assert(b.holds(4, ry, c, KING));
                    let q = b.sq(4, ry) - 1;
                    assert(b.pieces[q].alive && b.pieces[q].ptype == KING && b.pieces[q].color == c);
                    assert(q == k);
                    assert(b.pieces[q].x == 4 && b.pieces[q].y == ry);
                }
            }
            lemma_piece_seq_distinct(b, p, c);
            let own = b.piece_seq(p, c);
            assert(s == prev + own);
            assert forall|n: int, m: int| 0 <= n < prev.len() && 0 <= m < own.len() implies prev[n] != own[m] by {
                assert(from_piece_upto(b, c, i - 1, prev[n]));
                let j = choose|j: int| #![trigger b.pieces[j]]
                    0 <= j < i - 1 && b.pieces[j].alive && b.pieces[j].color == c
                        && prev[n].fx == b.pieces[j].x && prev[n].fy == b.pieces[j].y;
                assert(b.sq(b.pieces[j].x as int, b.pieces[j].y as int) == j + 1);
                assert(own[m].fx == p.x && own[m].fy == p.y);
            }
            vstd::seq_lib::lemma_no_dup_in_concat(prev, own);
            assert forall|n: int| 0 <= n < s.len() implies #[trigger] from_piece_upto(b, c, i, s[n]) by {
                if n < prev.len() {
                    assert(s[n] == prev[n]);
                    assert(from_piece_upto(b, c, i - 1, prev[n]));
                    let j = choose|j: int| #![trigger b.pieces[j]]
                        0 <= j < i - 1 && b.pieces[j].alive && b.pieces[j].color == c
                            && prev[n].fx == b.pieces[j].x && prev[n].fy == b.pieces[j].y;
                } else {
                    assert(s[n] == own[n - prev.len()]);
                    assert(own[n - prev.len()].fx == p.x && own[n - prev.len()].fy == p.y);
                    assert(b.pieces[i - 1] == p);
                }
            }
        } else {
            assert(s =~= prev);
            assert forall|n: int| 0 <= n < s.len() implies #[trigger] from_piece_upto(b, c, i, s[n]) by {
                assert(from_piece_upto(b, c, i - 1, prev[n]));
                let j = choose|j: int| #![trigger b.pieces[j]]
                    0 <= j < i - 1 && b.pieces[j].alive && b.pieces[j].color == c
                        && prev[n].fx == b.pieces[j].x && prev[n].fy == b.pieces[j].y;
            }
        }
    }
}

/// Filtering keeps a sequence free of duplicates.
proof fn lemma_filter_distinct(s: Seq<Move>, pred: spec_fn(Move) -> bool)
    requires
        s.no_duplicates(),
    ensures
        s.filter(pred).no_duplicates(),
    decreases s.len(),
{
    reveal(Seq::filter);
    if s.len() > 0 {
        let rest = s.drop_last();
        assert(rest.no_duplicates());
        lemma_filter_distinct(rest, pred);
        let fr = rest.filter(pred);
        if pred(s.last()) {
            if fr.contains(s.last()) {
                rest.lemma_filter_contains_rev(pred, s.last());
                let j = choose|j: int| 0 <= j < rest.len() && rest[j] == s.last();
                assert(s[j] == s[s.len() - 1]);
            }
            assert(s.filter(pred) == fr.push(s.last()));
            assert forall|a: int, b2: int| 0 <= a < fr.len() + 1 && 0 <= b2 < fr.len() + 1 && a != b2
                implies fr.push(s.last())[a] != fr.push(s.last())[b2] by {
                if a < fr.len() && b2 < fr.len() {
                } else if a < fr.len() {
                    assert(fr.contains(fr[a]));
                } else {
                    assert(fr.contains(fr[b2]));
                }
            }
        }
    }
}

/// The moves generated for a colour with a single king, in a position whose
/// castling rights go with their king and rook, are pairwise distinct: both
/// the pseudo-legal and the legal moves.
pub proof fn lemma_generated_moves_distinct(b: BoardModel, c: i32)
    requires
        b.wf(),
        b.castle_sane(),
        exists|k: int| sole_king(b, c, k),
    ensures
        b.pseudo_seq(c, b.pieces.len() as int).no_duplicates(),
        b.legal_seq(c).no_duplicates(),
{
    let k = choose|k: int| sole_king(b, c, k);
    lemma_pseudo_seq_distinct(b, c, k, b.pieces.len() as int);
    lemma_filter_distinct(b.pseudo_seq(c, b.pieces.len() as int), |m: Move| !b.applied(m).in_check(c));
}

/// In every position reached from the start position by legal moves, the
/// legal moves of the side to move are listed without repetition, so their
/// number is the number of distinct legal moves.
pub proof fn lemma_game_moves_distinct(ms: Seq<Move>)
    requires
        legal_line(initial_model(), ms),
    ensures
        play_line(initial_model(), ms).legal_seq(play_line(initial_model(), ms).side_to_move).no_duplicates(),
{
    let b = play_line(initial_model(), ms);
    lemma_games_stay_in_game(ms);
    if b.side_to_move == WHITE {
        lemma_generated_moves_distinct(b, WHITE);
    } else {
        lemma_generated_moves_distinct(b, BLACK);
    }
}

} // verus!
