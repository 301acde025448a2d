//! Laws of move generation stated in plain board geometry: how each kind of
//! piece moves, independent of the tables the generator walks through.

use vstd::prelude::*;
use crate::constants::{
    on_board, knight_off, king_off, bishop_dir, rook_dir, slider_dir, slider_dir_count, WHITE, BLACK, PAWN, KNIGHT,
    BISHOP, ROOK, QUEEN, KING,
};
use crate::board::{BoardModel, Move, shift, jump_off, pawn_dir};

verus! {

/// Absolute value.
pub open spec fn abs_of(v: int) -> int {
    if v < 0 { -v } else { v }
}

/// Direction of a coordinate difference: -1, 0 or 1.
pub open spec fn unit_of(v: int) -> int {
    if v > 0 { 1 } else if v < 0 { -1 } else { 0 }
}

/// A knight's jump: one square along one axis and two along the other.
pub open spec fn knight_jump(dx: int, dy: int) -> bool {
    (abs_of(dx) == 1 && abs_of(dy) == 2) || (abs_of(dx) == 2 && abs_of(dy) == 1)
}

/// A king's step: to one of the eight squares around.
pub open spec fn king_step(dx: int, dy: int) -> bool {
    abs_of(dx) <= 1 && abs_of(dy) <= 1 && !(dx == 0 && dy == 0)
}

/// The lines a sliding piece of type `t` moves along: diagonals for a
/// bishop, ranks and files for a rook, both for a queen.
pub open spec fn slides_along(t: u8, dx: int, dy: int) -> bool {
    let diagonal = abs_of(dx) == abs_of(dy) && dx != 0;
    let straight = (dx == 0) != (dy == 0);
    if t == BISHOP { diagonal } else if t == ROOK { straight } else { diagonal || straight }
}

/// Every square strictly between (x, y) and (tx, ty) on their line is empty.
pub open spec fn clear_between(b: BoardModel, x: int, y: int, tx: int, ty: int) -> bool {
    let n = if abs_of(tx - x) >= abs_of(ty - y) { abs_of(tx - x) } else { abs_of(ty - y) };
    forall|j: int| 1 <= j < n ==> #[trigger] b.sq(shift(x, unit_of(tx - x), j), shift(y, unit_of(ty - y), j)) == 0
}

/// Whether a piece of type `t` may go from (x, y) to (tx, ty) by its own
/// motion (castling and pawns aside).
pub open spec fn piece_geometry(b: BoardModel, t: u8, x: int, y: int, tx: int, ty: int) -> bool {
    if t == KNIGHT {
        knight_jump(tx - x, ty - y)
    } else if t == KING {
        king_step(tx - x, ty - y)
    } else {
        (t == BISHOP || t == ROOK || t == QUEEN) && slides_along(t, tx - x, ty - y) && clear_between(b, x, y, tx, ty)
    }
}

/// A move by a knight, bishop, rook, queen or king that is not castling
/// follows that piece's motion: a knight jumps, a king steps to an adjacent
/// square, a bishop, rook or queen slides along its lines over empty squares;
/// it lands on the board on an empty square or an enemy, and never promotes.
pub proof fn lemma_piece_move_shape(b: BoardModel, c: i32, m: Move)
    requires
        b.wf(),
        b.pseudo_move(c, m),
        !m.is_castle,
        b.sq(m.fx as int, m.fy as int) != 0,
        b.at(m.fx as int, m.fy as int).ptype != PAWN,
    ensures
        on_board(m.tx as int, m.ty as int),
        b.sq(m.tx as int, m.ty as int) == 0 || b.at(m.tx as int, m.ty as int).color != c,
        m.promotion == 0 && !m.is_en_passant,
        piece_geometry(b, b.at(m.fx as int, m.fy as int).ptype, m.fx as int, m.fy as int, m.tx as int, m.ty as int),
{
    let i = choose|i: int| 0 <= i < b.pieces.len() && #[trigger] b.gen(i, c, m);
    let p = b.pieces[i];
    let (x, y) = (p.x as int, p.y as int);
    assert(on_board(x, y));
    assert(b.sq(x, y) == i + 1);
    if p.ptype == PAWN {
        assert(b.pawn_move(x, y, c, m));
        assert(m.fx == x && m.fy == y);
    } else if p.ptype == KNIGHT || (p.ptype == KING && b.jump_move(x, y, c, KING, m)) {
        let j = choose|j: int| 0 <= j < 8 && #[trigger] b.step_move(
            x, y, c, jump_off(p.ptype, j).0 as int, jump_off(p.ptype, j).1 as int, m);
        assert(m.fx == x && m.fy == y);
        assert(b.at(x, y) == p);
    } else if p.ptype == KING {
        assert(b.castle_move(c, m));
    } else {
        let j = choose|j: int| 0 <= j < slider_dir_count(p.ptype)
            && #[trigger] b.ray_move(x, y, c, slider_dir(p.ptype, j), m);
        let d = slider_dir(p.ptype, j);
        let n = choose|n: int| #[trigger] b.ray_target(x, y, c, d, n, m);
        assert(m.fx == x && m.fy == y);
        assert(b.at(x, y) == p);
        assert(p.ptype == BISHOP || p.ptype == ROOK || p.ptype == QUEEN);
        assert(d.0 == -1 || d.0 == 0 || d.0 == 1);
        assert(d.1 == -1 || d.1 == 0 || d.1 == 1);
        assert(!(d.0 == 0 && d.1 == 0));
        assert(p.ptype == BISHOP ==> d.0 != 0 && d.1 != 0);
        assert(p.ptype == ROOK ==> d.0 == 0 || d.1 == 0);
        let (tx, ty) = (m.tx as int, m.ty as int);
        assert(unit_of(tx - x) == d.0 as int);
        assert(unit_of(ty - y) == d.1 as int);
        let nn = if abs_of(tx - x) >= abs_of(ty - y) { abs_of(tx - x) } else { abs_of(ty - y) };
        assert(nn == n);
        assert forall|k: int| 1 <= k < nn implies #[trigger] b.sq(shift(x, unit_of(tx - x), k), shift(y, unit_of(ty - y), k)) == 0 by {
            assert(b.ray_clear(x, y, d, n));
        }
    }
}

/// Conversely, every such motion is generated: a living knight, bishop,
/// rook, queen or king of colour `c` may go to any square of the board its
/// motion reaches (over empty squares for a sliding piece) that is empty or
/// holds an enemy.
pub proof fn lemma_piece_moves_complete(b: BoardModel, c: i32, x: i32, y: i32, tx: i32, ty: i32)
    requires
        b.wf(),
        on_board(x as int, y as int),
        b.sq(x as int, y as int) != 0,
        b.at(x as int, y as int).color == c,
        on_board(tx as int, ty as int),
        b.sq(tx as int, ty as int) == 0 || b.at(tx as int, ty as int).color != c,
        piece_geometry(b, b.at(x as int, y as int).ptype, x as int, y as int, tx as int, ty as int),
    ensures
        b.pseudo_move(c, Move::plain(x, y, tx, ty)),
{
    let m = Move::plain(x, y, tx, ty);
    let i = b.sq(x as int, y as int) - 1;
    let p = b.pieces[i];
    assert(p.alive && p.x == x && p.y == y);
    let (dx, dy) = (tx - x, ty - y);
    if p.ptype == KNIGHT || p.ptype == KING {
        let k: int = if p.ptype == KNIGHT {
            if dx == 1 && dy == 2 { 0 } else if dx == 2 && dy == 1 { 1 } else if dx == -1 && dy == 2 { 2 }
            else if dx == -2 && dy == 1 { 3 } else if dx == 1 && dy == -2 { 4 } else if dx == 2 && dy == -1 { 5 }
            else if dx == -1 && dy == -2 { 6 } else { 7 }
        } else {
            if dx == 1 && dy == 1 { 0 } else if dx == 1 && dy == 0 { 1 } else if dx == 1 && dy == -1 { 2 }
            else if dx == 0 && dy == 1 { 3 } else if dx == 0 && dy == -1 { 4 } else if dx == -1 && dy == 1 { 5 }
            else if dx == -1 && dy == 0 { 6 } else { 7 }
        };
        assert(jump_off(p.ptype, k) == (dx as i32, dy as i32));
        assert(b.step_move(x as int, y as int, c, jump_off(p.ptype, k).0 as int, jump_off(p.ptype, k).1 as int, m));
        assert(b.jump_move(x as int, y as int, c, p.ptype, m));
        assert(b.piece_move(p, c, m));
    } else {
        let d: (i32, i32) = (unit_of(dx as int) as i32, unit_of(dy as int) as i32);
        let k: int = if p.ptype == BISHOP {
            if d == (1i32, 1i32) { 0 } else if d == (1i32, -1i32) { 1 } else if d == (-1i32, 1i32) { 2 } else { 3 }
        } else if p.ptype == ROOK {
            if d == (1i32, 0i32) { 0 } else if d == (-1i32, 0i32) { 1 } else if d == (0i32, 1i32) { 2 } else { 3 }
        } else {
            if d == (1i32, 1i32) { 0 } else if d == (1i32, -1i32) { 1 } else if d == (-1i32, 1i32) { 2 }
            else if d == (-1i32, -1i32) { 3 } else if d == (1i32, 0i32) { 4 } else if d == (-1i32, 0i32) { 5 }
            else if d == (0i32, 1i32) { 6 } else { 7 }
        };
        assert(slider_dir(p.ptype, k) == d);
        let n: int = if abs_of(dx as int) >= abs_of(dy as int) { abs_of(dx as int) } else { abs_of(dy as int) };
        assert(shift(x as int, d.0 as int, n) == tx && shift(y as int, d.1 as int, n) == ty);
        assert forall|j: int| 1 <= j < n implies {
            &&& on_board(#[trigger] shift(x as int, d.0 as int, j), shift(y as int, d.1 as int, j))
            &&& b.sq(shift(x as int, d.0 as int, j), shift(y as int, d.1 as int, j)) == 0
        } by {
            assert(b.sq(shift(x as int, unit_of(tx - x), j), shift(y as int, unit_of(ty - y), j)) == 0);
        }
        assert(b.ray_clear(x as int, y as int, d, n));
        assert(b.ray_target(x as int, y as int, c, d, n, m));
        assert(b.ray_move(x as int, y as int, c, slider_dir(p.ptype, k), m));
        assert(b.slider_move(x as int, y as int, c, p.ptype, m));
        assert(b.piece_move(p, c, m));
    }
    assert(b.gen(i, c, m));
}

/// A promotion piece: queen, rook, bishop or knight.
pub open spec fn promotion_piece(q: u8) -> bool {
    q == QUEEN || q == ROOK || q == BISHOP || q == KNIGHT
}

/// Every pawn move the rules allow is generated: for a living pawn of
/// colour `c`, the step forward onto an empty square, the double step from
/// its start rank over two empty squares, the diagonal step onto an enemy,
/// and the diagonal step onto the en-passant square; a step onto the last
/// rank comes with each promotion piece, any other step with none.
pub proof fn lemma_pawn_moves_complete(b: BoardModel, c: i32, x: i32, y: i32, tx: i32, ty: i32, q: u8)
    requires
        b.wf(),
        c == WHITE || c == BLACK,
        on_board(x as int, y as int),
        b.sq(x as int, y as int) != 0,
        b.at(x as int, y as int).color == c,
        b.at(x as int, y as int).ptype == PAWN,
        on_board(tx as int, ty as int),
        (ty as int == (if c == WHITE { 7int } else { 0int })) ==> promotion_piece(q),
        (ty as int != (if c == WHITE { 7int } else { 0int })) ==> q == 0,
    ensures
        ({
            let fwd: int = if c == WHITE { 1 } else { -1 };
            let step = Move { fx: x, fy: y, tx, ty, promotion: q, is_en_passant: false, is_castle: false };
            &&& tx == x && ty == y + fwd && b.sq(tx as int, ty as int) == 0 ==> b.pseudo_move(c, step)
            &&& (tx == x + 1 || tx == x - 1) && ty == y + fwd && b.sq(tx as int, ty as int) != 0
                    && b.at(tx as int, ty as int).color != c ==> b.pseudo_move(c, step)
            &&& tx == x && ty == y + 2 * fwd && y == (if c == WHITE { 1int } else { 6int })
                    && b.sq(x as int, y + fwd) == 0 && b.sq(tx as int, ty as int) == 0
                    ==> b.pseudo_move(c, Move::plain(x, y, tx, ty))
            &&& (tx == x + 1 || tx == x - 1) && ty == y + fwd && b.en_passant == Some((tx, ty))
                    ==> b.pseudo_move(c, Move { fx: x, fy: y, tx, ty, promotion: 0, is_en_passant: true, is_castle: false })
        }),
{
    let i = b.sq(x as int, y as int) - 1;
    let p = b.pieces[i];
    assert(p.alive && p.x == x && p.y == y);
    let fwd: int = if c == WHITE { 1 } else { -1 };
    let step = Move { fx: x, fy: y, tx, ty, promotion: q, is_en_passant: false, is_castle: false };
    if tx == x && ty == y + fwd && b.sq(tx as int, ty as int) == 0 {
        assert(b.pawn_push(x as int, y as int, c, step));
        assert(b.gen(i, c, step));
    }
    if (tx == x + 1 || tx == x - 1) && ty == y + fwd && b.sq(tx as int, ty as int) != 0
        && b.at(tx as int, ty as int).color != c {
        assert(b.pawn_capture(x as int, y as int, c, (tx - x) as int, step));
        assert(b.gen(i, c, step));
    }
    if tx == x && ty == y + 2 * fwd && y == (if c == WHITE { 1int } else { 6int })
        && b.sq(x as int, y + fwd) == 0 && b.sq(tx as int, ty as int) == 0 {
        assert(b.pawn_double(x as int, y as int, c, Move::plain(x, y, tx, ty)));
        assert(b.gen(i, c, Move::plain(x, y, tx, ty)));
    }
    let ep = Move { fx: x, fy: y, tx, ty, promotion: 0, is_en_passant: true, is_castle: false };
    if (tx == x + 1 || tx == x - 1) && ty == y + fwd && b.en_passant == Some((tx, ty)) {
        assert(b.pawn_ep(x as int, y as int, c, (tx - x) as int, ep));
        assert(b.gen(i, c, ep));
    }
}

/// A living piece of colour `c` on (px, py) attacks (x, y) by its own
/// motion: a pawn the two squares diagonally in front of it, a knight its
/// jumps, a king its steps, a bishop, rook or queen the squares along its
/// lines with every square between empty.
pub open spec fn attacks_from(b: BoardModel, c: i32, px: int, py: int, x: int, y: int) -> bool {
    let t = b.at(px, py).ptype;
    &&& on_board(px, py)
    &&& b.sq(px, py) != 0
    &&& b.at(px, py).alive
    &&& b.at(px, py).color == c
    &&& if t == PAWN {
            y - py == pawn_dir(c) && abs_of(x - px) == 1
        } else if t == KNIGHT {
            knight_jump(x - px, y - py)
        } else if t == KING {
            king_step(x - px, y - py)
        } else {
            (t == BISHOP || t == ROOK || t == QUEEN) && slides_along(t, x - px, y - py) && clear_between(b, px, py, x, y)
        }
}

/// A square is attacked by colour `c` exactly when some living piece of `c`
/// attacks it by its own motion.
pub proof fn lemma_attack_geometry(b: BoardModel, x: int, y: int, c: i32)
    requires
        c == WHITE || c == BLACK,
        on_board(x, y),
    ensures
        b.attacked(x, y, c) <==> exists|px: int, py: int| #[trigger] attacks_from(b, c, px, py, x, y),
{
    if b.pawn_attack(x, y, c) {
        let py = y - pawn_dir(c);
        if b.holds(x - 1, py, c, PAWN) {
            assert(attacks_from(b, c, x - 1, py, x, y));
        } else {
            assert(attacks_from(b, c, x + 1, py, x, y));
        }
    }
    if b.knight_attack(x, y, c) {
        let k = choose|k: int| 0 <= k < 8 && #[trigger] b.holds(x + knight_off(k).0, y + knight_off(k).1, c, KNIGHT);
        assert(attacks_from(b, c, x + knight_off(k).0, y + knight_off(k).1, x, y));
    }
    if b.king_attack(x, y, c) {
        let k = choose|k: int| 0 <= k < 8 && #[trigger] b.holds(x + king_off(k).0, y + king_off(k).1, c, KING);
        assert(attacks_from(b, c, x + king_off(k).0, y + king_off(k).1, x, y));
    }
    if b.diagonal_attack(x, y, c) {
        let k = choose|k: int| 0 <= k < 4 && #[trigger] b.ray_attack(x, y, bishop_dir(k), c, BISHOP, QUEEN);
        lemma_ray_attack_from(b, x, y, bishop_dir(k), c, BISHOP, QUEEN);
    }
    if b.orthogonal_attack(x, y, c) {
        let k = choose|k: int| 0 <= k < 4 && #[trigger] b.ray_attack(x, y, rook_dir(k), c, ROOK, QUEEN);
        lemma_ray_attack_from(b, x, y, rook_dir(k), c, ROOK, QUEEN);
    }
    if exists|px: int, py: int| #[trigger] attacks_from(b, c, px, py, x, y) {
        let (px, py) = choose|px: int, py: int| #[trigger] attacks_from(b, c, px, py, x, y);
        let t = b.at(px, py).ptype;
        let (dx, dy) = (px - x, py - y);
        assert(b.holds(px, py, c, t));
        if t == PAWN {
            assert(b.pawn_attack(x, y, c));
        } else if t == KNIGHT {
            let k: int = if dx == 1 && dy == 2 { 0 } else if dx == 2 && dy == 1 { 1 } else if dx == -1 && dy == 2 { 2 }
                else if dx == -2 && dy == 1 { 3 } else if dx == 1 && dy == -2 { 4 } else if dx == 2 && dy == -1 { 5 }
                else if dx == -1 && dy == -2 { 6 } else { 7 };
            assert(b.holds(x + knight_off(k).0, y + knight_off(k).1, c, KNIGHT));
        } else if t == KING {
            let k: int = if dx == 1 && dy == 1 { 0 } else if dx == 1 && dy == 0 { 1 } else if dx == 1 && dy == -1 { 2 }
                else if dx == 0 && dy == 1 { 3 } else if dx == 0 && dy == -1 { 4 } else if dx == -1 && dy == 1 { 5 }
                else if dx == -1 && dy == 0 { 6 } else { 7 };
            assert(b.holds(x + king_off(k).0, y + king_off(k).1, c, KING));
        } else {
            let d: (i32, i32) = (unit_of(dx) as i32, unit_of(dy) as i32);
            let n: int = if abs_of(dx) >= abs_of(dy) { abs_of(dx) } else { abs_of(dy) };
            assert(shift(x, d.0 as int, n) == px && shift(y, d.1 as int, n) == py);
            assert forall|j: int| 1 <= j < n implies {
                &&& on_board(#[trigger] shift(x, d.0 as int, j), shift(y, d.1 as int, j))
                &&& b.sq(shift(x, d.0 as int, j), shift(y, d.1 as int, j)) == 0
            } by {
                assert(b.sq(shift(px, unit_of(x - px), n - j), shift(py, unit_of(y - py), n - j)) == 0);
                assert(shift(px, unit_of(x - px), n - j) == shift(x, d.0 as int, j));
                assert(shift(py, unit_of(y - py), n - j) == shift(y, d.1 as int, j));
            }
            assert(b.ray_clear(x, y, d, n));
            if d.0 != 0 && d.1 != 0 {
                let k: int = if d == (1i32, 1i32) { 0 } else if d == (1i32, -1i32) { 1 } else if d == (-1i32, 1i32) { 2 } else { 3 };
                assert(bishop_dir(k) == d);
                assert(b.ray_attack(x, y, bishop_dir(k), c, BISHOP, QUEEN));
                assert(b.diagonal_attack(x, y, c));
            } else {
                let k: int = if d == (1i32, 0i32) { 0 } else if d == (-1i32, 0i32) { 1 } else if d == (0i32, 1i32) { 2 } else { 3 };
                assert(rook_dir(k) == d);
                assert(b.ray_attack(x, y, rook_dir(k), c, ROOK, QUEEN));
                assert(b.orthogonal_attack(x, y, c));
            }
        }
    }
}

/// A ray attack along `d` comes from a living bishop/rook/queen of `c`
/// attacking by its own motion.
proof fn lemma_ray_attack_from(b: BoardModel, x: int, y: int, d: (i32, i32), c: i32, t1: u8, t2: u8)
    requires
        on_board(x, y),
        (t1 == BISHOP && t2 == QUEEN && d.0 != 0 && d.1 != 0) || (t1 == ROOK && t2 == QUEEN && (d.0 == 0) != (d.1 == 0)),
        -1 <= d.0 <= 1 && -1 <= d.1 <= 1,
        b.ray_attack(x, y, d, c, t1, t2),
    ensures
        exists|px: int, py: int| #[trigger] attacks_from(b, c, px, py, x, y),
{
    let n = choose|n: int| n >= 1 && #[trigger] b.ray_clear(x, y, d, n) && {
        let px = shift(x, d.0 as int, n);
        let py = shift(y, d.1 as int, n);
        b.holds(px, py, c, t1) || b.holds(px, py, c, t2)
    };
    let px = shift(x, d.0 as int, n);
    let py = shift(y, d.1 as int, n);
    assert(unit_of(x - px) == -d.0 && unit_of(y - py) == -d.1);
    let nn = if abs_of(x - px) >= abs_of(y - py) { abs_of(x - px) } else { abs_of(y - py) };
    assert(nn == n);
    assert forall|j: int| 1 <= j < nn implies #[trigger] b.sq(shift(px, unit_of(x - px), j), shift(py, unit_of(y - py), j)) == 0 by {
        assert(shift(px, unit_of(x - px), j) == shift(x, d.0 as int, n - j));
        assert(shift(py, unit_of(y - py), j) == shift(y, d.1 as int, n - j));
        assert(b.sq(shift(x, d.0 as int, n - j), shift(y, d.1 as int, n - j)) == 0);
    }
    assert(attacks_from(b, c, px, py, x, y));
}

/// The king a position looks at for colour `c`: the first living king of
/// `c` in piece order, from index `i` on; none when `c` has no living king
/// there.
proof fn lemma_king_from(b: BoardModel, c: i32, i: int)
    requires
        0 <= i,
    ensures
        match b.king_from(c, i) {
            Some((kx, ky)) => exists|k: int| #![trigger b.pieces[k]] i <= k < b.pieces.len()
                && b.pieces[k].alive && b.pieces[k].ptype == KING && b.pieces[k].color == c
                && b.pieces[k].x == kx && b.pieces[k].y == ky,
            None => forall|k: int| #![trigger b.pieces[k]] i <= k < b.pieces.len()
                ==> !(b.pieces[k].alive && b.pieces[k].ptype == KING && b.pieces[k].color == c),
        },
    decreases b.pieces.len() - i,
{
    if i < b.pieces.len() {
        lemma_king_from(b, c, i + 1);
        let p = b.pieces[i];
        if !(p.alive && p.ptype == KING && p.color == c) {
            match b.king_from(c, i + 1) {
                Some((kx, ky)) => {},
                None => {
                    assert forall|k: int| #![trigger b.pieces[k]] i <= k < b.pieces.len()
                        implies !(b.pieces[k].alive && b.pieces[k].ptype == KING && b.pieces[k].color == c) by {
                        if k > i {
                        }
                    }
                },
            }
        }
    }
}

/// A side is in check exactly when it has a living king and some living
/// piece of the other side attacks the square of its (first) living king by
/// its own motion; a side without a living king is never in check.
pub proof fn lemma_check_geometry(b: BoardModel, c: i32)
    requires
        b.wf(),
        c == WHITE || c == BLACK,
    ensures
        match b.king_pos(c) {
            Some((kx, ky)) => {
                &&& exists|k: int| #![trigger b.pieces[k]] 0 <= k < b.pieces.len()
                        && b.pieces[k].alive && b.pieces[k].ptype == KING && b.pieces[k].color == c
                        && b.pieces[k].x == kx && b.pieces[k].y == ky
                &&& b.in_check(c) <==> exists|px: int, py: int|
                        #[trigger] attacks_from(b, crate::laws::opponent(c), px, py, kx as int, ky as int)
            },
            None => {
                &&& forall|k: int| #![trigger b.pieces[k]] 0 <= k < b.pieces.len()
                        ==> !(b.pieces[k].alive && b.pieces[k].ptype == KING && b.pieces[k].color == c)
                &&& !b.in_check(c)
            },
        },
{
    lemma_king_from(b, c, 0);
    match b.king_pos(c) {
        Some((kx, ky)) => {
            let k = choose|k: int| #![trigger b.pieces[k]] 0 <= k < b.pieces.len()
                && b.pieces[k].alive && b.pieces[k].ptype == KING && b.pieces[k].color == c
                && b.pieces[k].x == kx && b.pieces[k].y == ky;
            assert(on_board(kx as int, ky as int));
            assert((-c) as i32 == crate::laws::opponent(c));
            lemma_attack_geometry(b, kx as int, ky as int, crate::laws::opponent(c));
        },
        None => {},
    }
}

} // verus!
