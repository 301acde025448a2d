//! Properties of the rules that span several operations.

use vstd::prelude::*;
use crate::constants::{
    on_board, WHITE, BLACK, PAWN, KNIGHT, BISHOP, ROOK, QUEEN, KING, CASTLE_WK, CASTLE_WQ, CASTLE_BK,
    CASTLE_BQ,
};
use crate::board::{
    BoardModel, Move, Piece, initial_model, empty_model, initial_piece, initial_sq, back_rank, castling_after,
    pawn_dir,
};

verus! {

proof fn lemma_hash_squares_same(a: BoardModel, b: BoardModel, k: int)
    requires
        a.looks_like(b),
        0 <= k <= 64,
    ensures
        a.hash_squares(k) == b.hash_squares(k),
    decreases k,
{
    if k > 0 {
        lemma_hash_squares_same(a, b, k - 1);
        let x = (k - 1) % 8;
        let y = (k - 1) / 8;
        assert(on_board(x, y));
        assert(a.square_code(x, y) == b.square_code(x, y)) by {
            if a.sq(x, y) != 0 {
                assert(a.at(x, y).ptype == b.at(x, y).ptype);
            }
        }
    }
}

/// Position fingerprints ignore piece ids: two positions showing the same
/// piece type and colour on every square, with the same side to move,
/// castling rights and en-passant square, have the same fingerprint.
pub proof fn lemma_fingerprint_ignores_ids(a: BoardModel, b: BoardModel)
    requires
        a.looks_like(b),
    ensures
        a.fingerprint() == b.fingerprint(),
{
    lemma_hash_squares_same(a, b, 64);
}

/// The start position is well formed.
pub proof fn lemma_initial_wf()
    ensures
        initial_model().wf(),
{
    let b = initial_model();
    assert forall|x: int, y: int| on_board(x, y) && #[trigger] b.sq(x, y) != 0 implies {
        let p = b.at(x, y);
        p.alive && p.x == x && p.y == y
    } by {
        let i = b.sq(x, y) - 1;
        assert(b.pieces[i] == initial_piece(i));
    }
    assert forall|i: int| 0 <= i < b.pieces.len() && #[trigger] b.pieces[i].alive
        implies b.sq(b.pieces[i].x as int, b.pieces[i].y as int) == i + 1 by {
        assert(b.pieces[i] == initial_piece(i));
    }
    assert forall|i: int| 0 <= i < b.pieces.len() implies {
        let p = #[trigger] b.pieces[i];
        (p.color == WHITE || p.color == BLACK) && PAWN <= p.ptype <= KING
    } by {
        assert(b.pieces[i] == initial_piece(i));
    }
}

/// The empty board is well formed.
pub proof fn lemma_empty_wf()
    ensures
        empty_model().wf(),
{
}

/// The range, consistency and validity facts depend on squares and pieces only.
proof fn lemma_same_layout(a: BoardModel, b: BoardModel)
    requires
        a.squares == b.squares,
        a.pieces == b.pieces,
        a.indices_ok(),
        a.consistent(),
        a.valid_pieces(),
    ensures
        b.indices_ok(),
        b.consistent(),
        b.valid_pieces(),
{
    assert forall|x: int, y: int| on_board(x, y) implies #[trigger] b.sq(x, y) as int <= b.pieces.len() by {
        assert(a.sq(x, y) == b.sq(x, y));
    }
    assert forall|i: int| 0 <= i < b.pieces.len() && #[trigger] b.pieces[i].alive
        implies on_board(b.pieces[i].x as int, b.pieces[i].y as int) by {
        assert(a.pieces[i] == b.pieces[i]);
    }
    assert forall|x: int, y: int| on_board(x, y) && #[trigger] b.sq(x, y) != 0 implies {
        let p = b.at(x, y);
        p.alive && p.x == x && p.y == y
    } by {
        assert(a.sq(x, y) == b.sq(x, y));
    }
    assert forall|i: int| 0 <= i < b.pieces.len() && #[trigger] b.pieces[i].alive
        implies b.sq(b.pieces[i].x as int, b.pieces[i].y as int) == i + 1 by {
        assert(a.pieces[i] == b.pieces[i]);
    }
    assert forall|i: int| 0 <= i < b.pieces.len() implies {
        let p = #[trigger] b.pieces[i];
        (p.color == WHITE || p.color == BLACK) && PAWN <= p.ptype <= KING
    } by {
        assert(a.pieces[i] == b.pieces[i]);
    }
}

/// Taking the piece on (x, y) off the board keeps the layout consistent.
proof fn lemma_remove(b: BoardModel, x: int, y: int)
    requires
        b.indices_ok(),
        b.consistent(),
        b.valid_pieces(),
        on_board(x, y),
        b.sq(x, y) != 0,
    ensures
        ({
            let k = b.sq(x, y) - 1;
            let r = b.kill(k).set_sq(x, y, 0);
            &&& r.indices_ok()
            &&& r.consistent()
            &&& r.valid_pieces()
            &&& r.pieces.len() == b.pieces.len()
            &&& forall|x2: int, y2: int| on_board(x2, y2) ==> #[trigger] r.sq(x2, y2)
                    == if x2 == x && y2 == y { 0 } else { b.sq(x2, y2) }
            &&& forall|j: int| 0 <= j < b.pieces.len() && j != k ==> #[trigger] r.pieces[j] == b.pieces[j]
            &&& !r.pieces[k].alive
        }),
{
    let k = b.sq(x, y) - 1;
    let b1 = b.kill(k);
    let r = b1.set_sq(x, y, 0);
    assert(b1.squares == b.squares);
    assert(b1.indices_ok()) by {
        assert forall|i: int| 0 <= i < b1.pieces.len() && #[trigger] b1.pieces[i].alive
            implies on_board(b1.pieces[i].x as int, b1.pieces[i].y as int) by {
            assert(b1.pieces[i] == b.pieces[i]);
        }
        assert forall|x2: int, y2: int| on_board(x2, y2) implies #[trigger] b1.sq(x2, y2) as int <= b1.pieces.len() by {
            assert(b1.sq(x2, y2) == b.sq(x2, y2));
        }
    }
    crate::board::lemma_set_sq(b1, x, y, 0);
    assert forall|x2: int, y2: int| on_board(x2, y2) implies #[trigger] r.sq(x2, y2)
        == if x2 == x && y2 == y { 0 } else { b.sq(x2, y2) } by {
        assert(b1.sq(x2, y2) == b.sq(x2, y2));
    }
    assert forall|x2: int, y2: int| on_board(x2, y2) implies #[trigger] r.sq(x2, y2) as int <= r.pieces.len() by {
        assert(b.sq(x2, y2) as int <= b.pieces.len());
    }
    assert forall|i: int| 0 <= i < r.pieces.len() && #[trigger] r.pieces[i].alive
        implies on_board(r.pieces[i].x as int, r.pieces[i].y as int) by {
        assert(r.pieces[i] == b.pieces[i]);
    }
    assert forall|x2: int, y2: int| on_board(x2, y2) && #[trigger] r.sq(x2, y2) != 0 implies {
        let p = r.at(x2, y2);
        p.alive && p.x == x2 && p.y == y2
    } by {
        assert(b.sq(x2, y2) != 0);
        assert(b.sq(x2, y2) - 1 != k);
        assert(r.at(x2, y2) == b.at(x2, y2));
    }
    assert forall|i: int| 0 <= i < r.pieces.len() && #[trigger] r.pieces[i].alive
        implies r.sq(r.pieces[i].x as int, r.pieces[i].y as int) == i + 1 by {
        assert(i != k);
        assert(r.pieces[i] == b.pieces[i]);
        assert(b.sq(b.pieces[i].x as int, b.pieces[i].y as int) == i + 1);
    }
    assert forall|i: int| 0 <= i < r.pieces.len() implies {
        let p = #[trigger] r.pieces[i];
        (p.color == WHITE || p.color == BLACK) && PAWN <= p.ptype <= KING
    } by {
        assert(b.pieces[i].color == r.pieces[i].color && b.pieces[i].ptype == r.pieces[i].ptype);
    }
}

/// Moving the piece on (fx, fy) onto the empty square (tx, ty), replacing its
/// record by `np` standing there, keeps the layout consistent.
proof fn lemma_relocate(b: BoardModel, fx: int, fy: int, tx: int, ty: int, np: Piece)
    requires
        b.indices_ok(),
        b.consistent(),
        b.valid_pieces(),
        on_board(fx, fy),
        on_board(tx, ty),
        fx != tx || fy != ty,
        b.sq(fx, fy) != 0,
        b.sq(tx, ty) == 0,
        np.alive,
        np.x == tx,
        np.y == ty,
        np.color == WHITE || np.color == BLACK,
        PAWN <= np.ptype <= KING,
    ensures
        ({
            let id = b.sq(fx, fy);
            let r = b.set_sq(fx, fy, 0).set_sq(tx, ty, id).set_piece(id - 1, np);
            &&& r.indices_ok()
            &&& r.consistent()
            &&& r.valid_pieces()
            &&& r.pieces.len() == b.pieces.len()
            &&& forall|x2: int, y2: int| on_board(x2, y2) ==> #[trigger] r.sq(x2, y2)
                    == if x2 == tx && y2 == ty { id } else if x2 == fx && y2 == fy { 0 } else { b.sq(x2, y2) }
            &&& forall|j: int| 0 <= j < b.pieces.len() && j != id - 1 ==> #[trigger] r.pieces[j] == b.pieces[j]
            &&& r.pieces[id - 1] == np
        }),
{
    let id = b.sq(fx, fy);
    let b1 = b.set_sq(fx, fy, 0);
    crate::board::lemma_set_sq(b, fx, fy, 0);
    assert(b1.indices_ok()) by {
        assert forall|x2: int, y2: int| on_board(x2, y2) implies #[trigger] b1.sq(x2, y2) as int <= b1.pieces.len() by {
            assert(b.sq(x2, y2) as int <= b.pieces.len());
        }
        assert forall|i: int| 0 <= i < b1.pieces.len() && #[trigger] b1.pieces[i].alive
            implies on_board(b1.pieces[i].x as int, b1.pieces[i].y as int) by {
            assert(b1.pieces[i] == b.pieces[i]);
        }
    }
    let b2 = b1.set_sq(tx, ty, id);
    crate::board::lemma_set_sq(b1, tx, ty, id);
    let r = b2.set_piece(id - 1, np);
    assert(r.squares == b2.squares);
    assert forall|x2: int, y2: int| on_board(x2, y2) implies #[trigger] r.sq(x2, y2)
        == if x2 == tx && y2 == ty { id } else if x2 == fx && y2 == fy { 0 } else { b.sq(x2, y2) } by {
        assert(r.sq(x2, y2) == b2.sq(x2, y2));
    }
    assert(b.at(fx, fy).alive);
    assert forall|x2: int, y2: int| on_board(x2, y2) implies #[trigger] r.sq(x2, y2) as int <= r.pieces.len() by {
        assert(b.sq(x2, y2) as int <= b.pieces.len());
    }
    assert forall|i: int| 0 <= i < r.pieces.len() && #[trigger] r.pieces[i].alive
        implies on_board(r.pieces[i].x as int, r.pieces[i].y as int) by {
        if i != id - 1 {
            assert(r.pieces[i] == b.pieces[i]);
        }
    }
    assert forall|x2: int, y2: int| on_board(x2, y2) && #[trigger] r.sq(x2, y2) != 0 implies {
        let p = r.at(x2, y2);
        p.alive && p.x == x2 && p.y == y2
    } by {
        if x2 == tx && y2 == ty {
        } else {
            assert(b.sq(x2, y2) != 0);
            assert(b.sq(x2, y2) != id);
            assert(r.at(x2, y2) == b.at(x2, y2));
        }
    }
    assert forall|i: int| 0 <= i < r.pieces.len() && #[trigger] r.pieces[i].alive
        implies r.sq(r.pieces[i].x as int, r.pieces[i].y as int) == i + 1 by {
        if i != id - 1 {
            assert(r.pieces[i] == b.pieces[i]);
            assert(b.sq(b.pieces[i].x as int, b.pieces[i].y as int) == i + 1);
            assert(b.pieces[i].x != fx || b.pieces[i].y != fy);
            assert(b.pieces[i].x != tx || b.pieces[i].y != ty);
        }
    }
    assert forall|i: int| 0 <= i < r.pieces.len() implies {
        let p = #[trigger] r.pieces[i];
        (p.color == WHITE || p.color == BLACK) && PAWN <= p.ptype <= KING
    } by {
        if i != id - 1 {
            assert(r.pieces[i] == b.pieces[i]);
        }
    }
}

/// A move without castling or en passant from an occupied square to another
/// square keeps the position well formed, provided a promotion names a
/// piece type and a pawn double step passes over an empty square.
proof fn lemma_plain_move_wf(b: BoardModel, m: Move)
    requires
        b.wf(),
        on_board(m.fx as int, m.fy as int),
        on_board(m.tx as int, m.ty as int),
        m.fx != m.tx || m.fy != m.ty,
        b.sq(m.fx as int, m.fy as int) != 0,
        !m.is_castle,
        !m.is_en_passant,
        m.promotion == 0 || (KNIGHT <= m.promotion <= QUEEN),
        ({
            let dy = m.ty - m.fy;
            let mid = (m.fy + m.ty) / 2;
            (b.at(m.fx as int, m.fy as int).ptype == PAWN && (dy == 2 || dy == -2)) ==> {
                &&& m.fx == m.tx
                &&& on_board(m.fx as int, mid)
                &&& b.sq(m.fx as int, mid) == 0
            }
        }),
    ensures
        b.applied(m).wf(),
{
    let (fx, fy, tx, ty) = (m.fx as int, m.fy as int, m.tx as int, m.ty as int);
    let id = b.sq(fx, fy);
    let mover = b.pieces[id - 1];
    let color = mover.color;
    assert(mover.alive && mover.x == fx && mover.y == fy);
    let b1 = b.after_capture(m);
    let b2 = b1.after_relocate(m, id);
    let r = b.applied(m);
    assert(r.squares == b2.squares && r.pieces == b2.pieces);
    let np = Piece {
        x: m.tx,
        y: m.ty,
        last_move: Some((m.fx, m.fy, m.tx, m.ty)),
        ptype: if m.promotion != 0 { m.promotion } else { mover.ptype },
        ..mover
    };
    if b.sq(tx, ty) != 0 {
        let t = b.sq(tx, ty);
        assert(t != id);
        lemma_remove(b, tx, ty);
        let rb = b.kill(t - 1).set_sq(tx, ty, 0);
        assert(rb.pieces[id - 1] == mover);
        assert(rb.sq(fx, fy) == id);
        lemma_relocate(rb, fx, fy, tx, ty, np);
        let rel = rb.set_sq(fx, fy, 0).set_sq(tx, ty, id).set_piece(id - 1, np);
        assert(b1 == b.kill(t - 1));
        assert(b1.pieces[id - 1] == mover);
        crate::board::lemma_set_sq(b1, fx, fy, 0);
        crate::board::lemma_set_sq(b1.set_sq(fx, fy, 0), tx, ty, id);
        assert forall|y2: int| 0 <= y2 < 8 implies #[trigger] b2.squares[y2] =~= rel.squares[y2] by {
            assert forall|x2: int| 0 <= x2 < 8 implies b2.squares[y2][x2] == rel.squares[y2][x2] by {
                assert(b2.sq(x2, y2) == rel.sq(x2, y2));
            }
        }
        assert(b2.squares =~= rel.squares);
        assert(b2.pieces =~= rel.pieces);
        lemma_same_layout(rel, r);
    } else {
        assert(b1 == b);
        lemma_relocate(b, fx, fy, tx, ty, np);
        lemma_same_layout(b2, r);
    }
    // En-passant square of the result.
    let dy = m.ty - m.fy;
    if mover.ptype == PAWN && (dy == 2 || dy == -2) {
        let mid = (m.fy + m.ty) / 2;
        assert(r.sq(fx, mid) == 0);
    }
}

/// An en-passant capture by a pawn onto the en-passant square keeps the
/// position well formed.
proof fn lemma_ep_move_wf(b: BoardModel, m: Move)
    requires
        b.wf(),
        on_board(m.fx as int, m.fy as int),
        on_board(m.tx as int, m.ty as int),
        b.sq(m.fx as int, m.fy as int) != 0,
        m.is_en_passant,
        !m.is_castle,
        m.promotion == 0,
        m.ty == m.fy + crate::board::pawn_dir(b.mover_color(m)),
        m.tx == m.fx + 1 || m.tx == m.fx - 1,
        b.en_passant == Some((m.tx, m.ty)),
    ensures
        b.applied(m).wf(),
{
    let (fx, fy, tx, ty) = (m.fx as int, m.fy as int, m.tx as int, m.ty as int);
    let id = b.sq(fx, fy);
    let mover = b.pieces[id - 1];
    assert(mover.alive && mover.x == fx && mover.y == fy);
    assert(b.sq(tx, ty) == 0);
    let b1 = b.after_capture(m);
    let b2 = b1.after_relocate(m, id);
    let r = b.applied(m);
    assert(r.squares == b2.squares && r.pieces == b2.pieces);
    let np = Piece {
        x: m.tx,
        y: m.ty,
        last_move: Some((m.fx, m.fy, m.tx, m.ty)),
        ptype: mover.ptype,
        ..mover
    };
    let cap_y = ty - crate::board::pawn_dir(b.mover_color(m));
    assert(cap_y == fy);
    if b.sq(tx, cap_y) != 0 {
        let k = b.sq(tx, cap_y);
        assert(k != id);
        lemma_remove(b, tx, cap_y);
        assert(b1 == b.kill(k - 1).set_sq(tx, cap_y, 0));
        assert(b1.pieces[id - 1] == mover);
        assert(b1.sq(fx, fy) == id);
        assert(b1.sq(tx, ty) == 0);
        lemma_relocate(b1, fx, fy, tx, ty, np);
        lemma_same_layout(b2, r);
    } else {
        assert(b1 == b);
        lemma_relocate(b, fx, fy, tx, ty, np);
        lemma_same_layout(b2, r);
    }
}

/// Castling of the piece on (4, ry), of the colour whose home rank is ry, to
/// (kto, ry) with the rook jumping from (rf, ry) to (rt, ry) keeps the
/// position well formed when the king's target and the rook's target are
/// empty and the corner is occupied.
proof fn lemma_castle_move_wf(b: BoardModel, m: Move, ry: int, kto: int, rf: int, rt: int)
    requires
        b.wf(),
        ry == 0 || ry == 7,
        (kto == 6 && rf == 7 && rt == 5) || (kto == 2 && rf == 0 && rt == 3),
        m == (Move { fx: 4, fy: ry as i32, tx: kto as i32, ty: ry as i32, promotion: 0, is_en_passant: false, is_castle: true }),
        b.sq(4, ry) != 0,
        b.at(4, ry).color == (if ry == 0 { WHITE } else { BLACK }),
        b.sq(kto, ry) == 0,
        b.sq(rt, ry) == 0,
        b.sq(rf, ry) != 0,
    ensures
        b.applied(m).wf(),
{
    let id = b.sq(4, ry);
    let mover = b.pieces[id - 1];
    let color = mover.color;
    assert(mover.alive && mover.x == 4 && mover.y == ry);
    let b1 = b.after_capture(m);
    assert(b1 == b);
    let np = Piece {
        x: m.tx,
        y: m.ty,
        last_move: Some((m.fx, m.fy, m.tx, m.ty)),
        ptype: mover.ptype,
        ..mover
    };
    let b2 = b1.after_relocate(m, id);
    lemma_relocate(b, 4, ry, kto, ry, np);
    let rid = b2.sq(rf, ry);
    assert(rid == b.sq(rf, ry));
    assert(b2.sq(rt, ry) == 0);
    let rook = b2.pieces[rid - 1];
    let np2 = Piece {
        x: rt as i32,
        y: ry as i32,
        last_move: Some((rf as i32, ry as i32, rt as i32, ry as i32)),
        ..rook
    };
    assert(rook.alive);
    lemma_relocate(b2, rf, ry, rt, ry, np2);
    let b3 = b2.after_castle_rook(m, color);
    assert(b3 == b2.set_sq(rf, ry, 0).set_sq(rt, ry, rid).set_piece(rid - 1, np2));
    let r = b.applied(m);
    assert(r.squares == b3.squares && r.pieces == b3.pieces);
    lemma_same_layout(b3, r);
}

/// Playing a pseudo-legal move keeps a position well formed, when no
/// castling right held has an enemy piece on its king's home square.
pub proof fn lemma_applied_keeps_wf(b: BoardModel, c: i32, m: Move)
    requires
        b.wf(),
        b.castle_homes_own(),
        b.pseudo_move(c, m),
    ensures
        b.applied(m).wf(),
{
    let i = choose|i: int| 0 <= i < b.pieces.len() && #[trigger] b.gen(i, c, m);
    let p = b.pieces[i];
    let (x, y) = (p.x as int, p.y as int);
    assert(on_board(x, y));
    assert(b.sq(x, y) == i + 1);
    assert(b.at(x, y) == p);
    if p.ptype == PAWN {
        if b.pawn_ep(x, y, c, -1, m) || b.pawn_ep(x, y, c, 1, m) {
            lemma_ep_move_wf(b, m);
        } else {
            lemma_plain_move_wf(b, m);
        }
    } else if p.ptype == KNIGHT || (p.ptype == KING && b.jump_move(x, y, c, KING, m)) {
        let j = choose|j: int| 0 <= j < 8 && #[trigger] b.step_move(
            x, y, c, crate::board::jump_off(p.ptype, j).0 as int, crate::board::jump_off(p.ptype, j).1 as int, m);
        lemma_plain_move_wf(b, m);
    } else if p.ptype == KING {
        assert(b.castle_move(c, m));
        if b.sq(m.fx as int, m.fy as int) == 0 {
            assert(b.applied(m) == b);
        } else if m == crate::board::castle_wk() && c == WHITE && (b.castling & crate::constants::CASTLE_WK) != 0 {
            lemma_castle_move_wf(b, m, 0, 6, 7, 5);
        } else if m == crate::board::castle_wq() && c == WHITE && (b.castling & crate::constants::CASTLE_WQ) != 0 {
            lemma_castle_move_wf(b, m, 0, 2, 0, 3);
        } else if m == crate::board::castle_bk() && c == BLACK && (b.castling & crate::constants::CASTLE_BK) != 0 {
            lemma_castle_move_wf(b, m, 7, 6, 7, 5);
        } else {
            lemma_castle_move_wf(b, m, 7, 2, 0, 3);
        }
    } else {
        let j = choose|j: int| 0 <= j < crate::constants::slider_dir_count(p.ptype)
            && #[trigger] b.ray_move(x, y, c, crate::constants::slider_dir(p.ptype, j), m);
        let d = crate::constants::slider_dir(p.ptype, j);
        let n = choose|n: int| #[trigger] b.ray_target(x, y, c, d, n, m);
        assert(d.0 != 0 || d.1 != 0);
        lemma_plain_move_wf(b, m);
    }
}

/// Clearing castling bits keeps the other bits.
proof fn lemma_rights_bits(x: u8)
    by (bit_vector)
    ensures
        (x & !(CASTLE_WK | CASTLE_WQ)) & CASTLE_WK == 0,
        (x & !(CASTLE_WK | CASTLE_WQ)) & CASTLE_WQ == 0,
        (x & !(CASTLE_WK | CASTLE_WQ)) & CASTLE_BK == x & CASTLE_BK,
        (x & !(CASTLE_WK | CASTLE_WQ)) & CASTLE_BQ == x & CASTLE_BQ,
        (x & !(CASTLE_BK | CASTLE_BQ)) & CASTLE_BK == 0,
        (x & !(CASTLE_BK | CASTLE_BQ)) & CASTLE_BQ == 0,
        (x & !(CASTLE_BK | CASTLE_BQ)) & CASTLE_WK == x & CASTLE_WK,
        (x & !(CASTLE_BK | CASTLE_BQ)) & CASTLE_WQ == x & CASTLE_WQ,
        (x & !CASTLE_WK) & CASTLE_WK == 0,
        (x & !CASTLE_WK) & CASTLE_WQ == x & CASTLE_WQ,
        (x & !CASTLE_WK) & CASTLE_BK == x & CASTLE_BK,
        (x & !CASTLE_WK) & CASTLE_BQ == x & CASTLE_BQ,
        (x & !CASTLE_WQ) & CASTLE_WQ == 0,
        (x & !CASTLE_WQ) & CASTLE_WK == x & CASTLE_WK,
        (x & !CASTLE_WQ) & CASTLE_BK == x & CASTLE_BK,
        (x & !CASTLE_WQ) & CASTLE_BQ == x & CASTLE_BQ,
        (x & !CASTLE_BK) & CASTLE_BK == 0,
        (x & !CASTLE_BK) & CASTLE_WK == x & CASTLE_WK,
        (x & !CASTLE_BK) & CASTLE_WQ == x & CASTLE_WQ,
        (x & !CASTLE_BK) & CASTLE_BQ == x & CASTLE_BQ,
        (x & !CASTLE_BQ) & CASTLE_BQ == 0,
        (x & !CASTLE_BQ) & CASTLE_WK == x & CASTLE_WK,
        (x & !CASTLE_BQ) & CASTLE_WQ == x & CASTLE_WQ,
        (x & !CASTLE_BQ) & CASTLE_BK == x & CASTLE_BK,
{
}

/// One castling right: its bit, its colour, and the files of its king and rook on its rank.
pub open spec fn castle_right(f: u8, col: i32, rx: int, ry: int) -> bool {
    ||| f == CASTLE_WK && col == WHITE && rx == 7 && ry == 0
    ||| f == CASTLE_WQ && col == WHITE && rx == 0 && ry == 0
    ||| f == CASTLE_BK && col == BLACK && rx == 7 && ry == 7
    ||| f == CASTLE_BQ && col == BLACK && rx == 0 && ry == 7
}

/// A right that survives the update was held before, and the move neither
/// moved that colour's king, nor moved that rook from its corner, nor
/// captured a rook of that colour on that corner.
proof fn lemma_castling_after_keeps(
    castling: u8,
    m: Move,
    color: i32,
    t0: u8,
    ct: u8,
    cc: i32,
    cp: Option<(int, int)>,
    f: u8,
    col: i32,
    rx: int,
    ry: int,
)
    requires
        castle_right(f, col, rx, ry),
        castling_after(castling, m, color, t0, ct, cc, cp) & f != 0,
    ensures
        castling & f != 0,
        !(t0 == KING && color == col),
        !(t0 == ROOK && color == col && m.fx == rx && m.fy == ry),
        !(ct == ROOK && cc == col && cp == Some((rx, ry))),
{
    let c1: u8 = if t0 == KING {
        if color == WHITE { castling & !(CASTLE_WK | CASTLE_WQ) } else { castling & !(CASTLE_BK | CASTLE_BQ) }
    } else {
        castling
    };
    let c2: u8 = if t0 == ROOK {
        if color == WHITE {
            if m.fx == 0 && m.fy == 0 { c1 & !CASTLE_WQ } else if m.fx == 7 && m.fy == 0 { c1 & !CASTLE_WK } else { c1 }
        } else {
            if m.fx == 0 && m.fy == 7 { c1 & !CASTLE_BQ } else if m.fx == 7 && m.fy == 7 { c1 & !CASTLE_BK } else { c1 }
        }
    } else {
        c1
    };
    lemma_rights_bits(castling);
    lemma_rights_bits(c1);
    lemma_rights_bits(c2);
}

/// What a pseudo-legal move tells about itself: it starts on an occupied
/// square of its colour and lands on another square of the board; a
/// non-en-passant move lands on an empty square or an enemy; an en-passant
/// move lands on an empty square; only pawns promote, to a queen, rook,
/// bishop or knight; a castling move (where each right held goes with its
/// king and rook) is one of that colour's two castlings, made by a king; a
/// pawn moving two ranks makes its double step.
pub(crate) proof fn lemma_pseudo_facts(b: BoardModel, c: i32, m: Move)
    requires
        b.wf(),
        m.is_castle ==> b.castle_sane(),
        b.pseudo_move(c, m),
    ensures
        on_board(m.fx as int, m.fy as int),
        on_board(m.tx as int, m.ty as int),
        !(m.fx == m.tx && m.fy == m.ty),
        b.sq(m.fx as int, m.fy as int) != 0,
        b.at(m.fx as int, m.fy as int).color == c,
        !m.is_en_passant && b.sq(m.tx as int, m.ty as int) != 0 ==> b.at(m.tx as int, m.ty as int).color != c,
        m.is_en_passant ==> b.sq(m.tx as int, m.ty as int) == 0,
        m.is_en_passant ==> {
            &&& b.at(m.fx as int, m.fy as int).ptype == PAWN
            &&& b.en_passant == Some((m.tx, m.ty))
            &&& m.ty == m.fy + pawn_dir(c)
            &&& (m.tx == m.fx + 1 || m.tx == m.fx - 1)
        },
        m.promotion != 0 ==> {
            &&& b.at(m.fx as int, m.fy as int).ptype == PAWN
            &&& (m.promotion == QUEEN || m.promotion == ROOK || m.promotion == BISHOP || m.promotion == KNIGHT)
        },
        m.is_castle ==> {
            &&& b.at(m.fx as int, m.fy as int).ptype == KING
            &&& b.castle_move(c, m)
        },
        (b.at(m.fx as int, m.fy as int).ptype == PAWN && (m.ty - m.fy == 2 || m.ty - m.fy == -2)) ==> {
            &&& m.fx == m.tx
            &&& b.sq(m.tx as int, m.ty as int) == 0
            &&& m.promotion == 0
            &&& !m.is_en_passant
            &&& !m.is_castle
            &&& {
                ||| c == WHITE && m.fy == 1 && m.ty == 3
                ||| c != WHITE && m.fy == 6 && m.ty == 4
            }
        },
{
    let i = choose|i: int| 0 <= i < b.pieces.len() && #[trigger] b.gen(i, c, m);
    let p = b.pieces[i];
    let (x, y) = (p.x as int, p.y as int);
    assert(on_board(x, y));
    assert(b.sq(x, y) == i + 1);
    assert(b.at(x, y) == p);
    if p.ptype == PAWN {
    } else if p.ptype == KNIGHT || (p.ptype == KING && b.jump_move(x, y, c, KING, m)) {
        let j = choose|j: int| 0 <= j < 8 && #[trigger] b.step_move(
            x, y, c, crate::board::jump_off(p.ptype, j).0 as int, crate::board::jump_off(p.ptype, j).1 as int, m);
    } else if p.ptype == KING {
        assert(b.castle_move(c, m));
        if c == WHITE {
            assert(b.holds(4, 0, WHITE, KING));
        } else {
            assert(b.holds(4, 7, BLACK, KING));
        }
    } else {
        let j = choose|j: int| 0 <= j < crate::constants::slider_dir_count(p.ptype)
            && #[trigger] b.ray_move(x, y, c, crate::constants::slider_dir(p.ptype, j), m);
        let d = crate::constants::slider_dir(p.ptype, j);
        let n = choose|n: int| #[trigger] b.ray_target(x, y, c, d, n, m);
    }
}

/// A castling right that survives a move (which captures no king) still has
/// its king and its rook on their home squares afterwards.
proof fn lemma_right_survives(b: BoardModel, c: i32, m: Move, f: u8, col: i32, rx: int, ry: int)
    requires
        b.wf(),
        b.castle_sane(),
        b.pseudo_move(c, m),
        b.captured_type(m) != KING,
        castle_right(f, col, rx, ry),
        b.applied(m).castling & f != 0,
    ensures
        b.applied(m).holds(4, ry, col, KING),
        b.applied(m).holds(rx, ry, col, ROOK),
{
    lemma_pseudo_facts(b, c, m);
    let (fx, fy, tx, ty) = (m.fx as int, m.fy as int, m.tx as int, m.ty as int);
    let id = b.sq(fx, fy);
    let mover = b.pieces[id - 1];
    let color = mover.color;
    let t0 = mover.ptype;
    let b1 = b.after_capture(m);
    let b2 = b1.after_relocate(m, id);
    let b3 = b2.after_castle_rook(m, color);
    let r = b.applied(m);
    assert(b3.castling == b.castling);
    lemma_castling_after_keeps(
        b.castling, m, color, t0, b.captured_type(m), b.captured_color(m), b.capture_square(m), f, col, rx, ry);
    assert(b.holds(4, ry, col, KING) && b.holds(rx, ry, col, ROOK));
    let k = b.sq(4, ry);
    let rk = b.sq(rx, ry);
    let king = b.pieces[k - 1];
    let rook = b.pieces[rk - 1];
    assert(king.x == 4 && king.y == ry);
    assert(rook.x == rx && rook.y == ry);
    assert(mover.x == fx && mover.y == fy);
    // the move starts elsewhere
    assert(!(fx == 4 && fy == ry));
    assert(!(fx == rx && fy == ry));
    assert(id != k && id != rk && k != rk);
    // the capture, if any, is elsewhere
    match b.capture_square(m) {
        Some((cx, cy)) => {
            assert(b.at(cx, cy).ptype != KING);
            assert(!(cx == 4 && cy == ry));
            assert(!(cx == rx && cy == ry));
            let q = b.sq(cx, cy);
            assert(b.pieces[q - 1].x == cx && b.pieces[q - 1].y == cy);
            assert(q != k && q != rk);
        },
        None => {},
    }
    assert(b1.sq(4, ry) == k && b1.sq(rx, ry) == rk);
    assert(b1.pieces[k - 1] == king && b1.pieces[rk - 1] == rook);
    // the target is elsewhere
    if !m.is_en_passant && b.sq(tx, ty) != 0 {
        assert(b.capture_square(m) == Some((tx, ty)));
    }
    assert(!(tx == 4 && ty == ry));
    assert(!(tx == rx && ty == ry));
    assert(b2.sq(4, ry) == k && b2.sq(rx, ry) == rk);
    assert(b2.pieces[k - 1] == king && b2.pieces[rk - 1] == rook);
    // a castling rook moves on the other colour's rank
    if m.is_castle {
        assert(t0 == KING);
        assert(color != col);
        let ry2: int = if color == WHITE { 0 } else { 7 };
        assert(ry2 != ry);
        let rf: int = if m.tx == 6 { 7 } else { 0 };
        let rid = b2.sq(rf, ry2);
        if rid != 0 {
            assert(b1 == b);
            assert(b2.sq(rf, ry2) == b.sq(rf, ry2));
            assert(b.pieces[rid - 1].y == ry2);
            assert(rid != k && rid != rk);
        }
    }
    assert(b3.sq(4, ry) == k && b3.sq(rx, ry) == rk);
    assert(b3.pieces[k - 1] == king && b3.pieces[rk - 1] == rook);
    assert(r.squares == b3.squares && r.pieces == b3.pieces);
}

/// Playing a pseudo-legal move that captures no king keeps every castling
/// right with its king and rook on their home squares.
pub proof fn lemma_applied_keeps_castle_sane(b: BoardModel, c: i32, m: Move)
    requires
        b.wf(),
        b.castle_sane(),
        b.pseudo_move(c, m),
        b.captured_type(m) != KING,
    ensures
        b.applied(m).castle_sane(),
{
    let r = b.applied(m);
    if r.castling & CASTLE_WK != 0 {
        lemma_right_survives(b, c, m, CASTLE_WK, WHITE, 7, 0);
    }
    if r.castling & CASTLE_WQ != 0 {
        lemma_right_survives(b, c, m, CASTLE_WQ, WHITE, 0, 0);
    }
    if r.castling & CASTLE_BK != 0 {
        lemma_right_survives(b, c, m, CASTLE_BK, BLACK, 7, 7);
    }
    if r.castling & CASTLE_BQ != 0 {
        lemma_right_survives(b, c, m, CASTLE_BQ, BLACK, 0, 7);
    }
}

/// Playing a pseudo-legal move keeps the en-passant square, if any, strictly
/// between the first and last rank: a double step from the start rank sets
/// it to the rank passed over, every other move clears it.
pub proof fn lemma_applied_keeps_ep_sane(b: BoardModel, c: i32, m: Move)
    requires
        b.wf(),
        b.castle_sane(),
        b.pseudo_move(c, m),
    ensures
        b.applied(m).ep_sane(),
{
    lemma_pseudo_facts(b, c, m);
}

/// The start position holds all four castling rights with kings and rooks
/// at home, and has no en-passant square.
pub proof fn lemma_initial_sane()
    ensures
        initial_model().castle_sane(),
        initial_model().ep_sane(),
{
    let b = initial_model();
    assert(b.sq(4, 0) == 25 && b.pieces[24] == initial_piece(24));
    assert(b.sq(0, 0) == 17 && b.pieces[16] == initial_piece(16));
    assert(b.sq(7, 0) == 31 && b.pieces[30] == initial_piece(30));
    assert(b.sq(4, 7) == 26 && b.pieces[25] == initial_piece(25));
    assert(b.sq(0, 7) == 18 && b.pieces[17] == initial_piece(17));
    assert(b.sq(7, 7) == 32 && b.pieces[31] == initial_piece(31));
}

/// A position in play: well formed, every castling right held with its king
/// and rook at home, and the en-passant square off the first and last rank.
pub open spec fn in_play(b: BoardModel) -> bool {
    b.wf() && b.castle_sane() && b.ep_sane()
}

/// The start position is in play.
pub proof fn lemma_initial_in_play()
    ensures
        in_play(initial_model()),
{
    lemma_initial_wf();
    lemma_initial_sane();
}

/// Positions stay in play: playing a pseudo-legal move that captures no king
/// from a position in play gives a position in play.
pub proof fn lemma_play_stays_in_play(b: BoardModel, c: i32, m: Move)
    requires
        in_play(b),
        b.pseudo_move(c, m),
        b.captured_type(m) != KING,
    ensures
        in_play(b.applied(m)),
{
    lemma_applied_keeps_wf(b, c, m);
    lemma_applied_keeps_castle_sane(b, c, m);
    lemma_applied_keeps_ep_sane(b, c, m);
}

/// Filtering picks entries of the sequence, in order: the result is indexed
/// by increasing positions of `s` whose entries satisfy `pred`, and every
/// entry of `s` satisfying `pred` is kept.
proof fn lemma_filter_picks<A>(s: Seq<A>, pred: spec_fn(A) -> bool) -> (f: Seq<int>)
    ensures
        f.len() == s.filter(pred).len(),
        forall|i: int| 0 <= i < f.len() ==> 0 <= #[trigger] f[i] < s.len() && s[f[i]] == s.filter(pred)[i]
            && pred(s[f[i]]),
        forall|i: int, j: int| 0 <= i < j < f.len() ==> #[trigger] f[i] < #[trigger] f[j],
        forall|k: int| 0 <= k < s.len() && pred(s[k]) ==> #[trigger] s.filter(pred).contains(s[k]),
    decreases s.len(),
{
    reveal(Seq::filter);
    if s.len() == 0 {
        Seq::empty()
    } else {
        let rest = s.drop_last();
        let g = lemma_filter_picks(rest, pred);
        let fr = rest.filter(pred);
        assert forall|k: int| 0 <= k < s.len() && pred(s[k]) implies #[trigger] s.filter(pred).contains(s[k]) by {
            if k < s.len() - 1 {
                assert(rest[k] == s[k]);
                assert(fr.contains(rest[k]));
                let j = choose|j: int| 0 <= j < fr.len() && fr[j] == rest[k];
                assert(s.filter(pred)[j] == s[k]);
            } else {
                assert(s.filter(pred)[s.filter(pred).len() - 1] == s[k]);
            }
        }
        if pred(s.last()) {
            let f = g.push(s.len() - 1);
            assert(s.filter(pred) == fr.push(s.last()));
            assert forall|i: int| 0 <= i < f.len() implies 0 <= #[trigger] f[i] < s.len() && s[f[i]] == s.filter(pred)[i]
                && pred(s[f[i]]) by {
                if i < g.len() {
                    assert(f[i] == g[i]);
                    assert(rest[g[i]] == s[g[i]]);
                }
            }
            assert forall|i: int, j: int| 0 <= i < j < f.len() implies #[trigger] f[i] < #[trigger] f[j] by {
                if j < g.len() {
                    assert(f[i] == g[i] && f[j] == g[j]);
                } else {
                    assert(f[i] == g[i]);
                }
            }
            f
        } else {
            assert(s.filter(pred) == fr);
            assert forall|i: int| 0 <= i < g.len() implies 0 <= #[trigger] g[i] < s.len() && s[g[i]] == s.filter(pred)[i]
                && pred(s[g[i]]) by {
                assert(rest[g[i]] == s[g[i]]);
            }
            g
        }
    }
}

/// The legal moves of a colour are its pseudo-legal moves after which its
/// own king is not attacked, in generation order: each legal move is such a
/// pseudo-legal move, none of those is missing, and the legal moves appear
/// at increasing positions of the pseudo-legal sequence.
pub proof fn lemma_legal_moves_are_safe_pseudo_moves(b: BoardModel, c: i32)
    ensures
        forall|i: int| 0 <= i < b.legal_seq(c).len() ==> {
            let m = #[trigger] b.legal_seq(c)[i];
            b.pseudo_seq(c, b.pieces.len() as int).contains(m) && !b.applied(m).in_check(c)
        },
        forall|m: Move| #[trigger] b.pseudo_seq(c, b.pieces.len() as int).contains(m) && !b.applied(m).in_check(c)
            ==> b.legal_seq(c).contains(m),
        exists|f: Seq<int>| #![trigger f.len()] {
            &&& f.len() == b.legal_seq(c).len()
            &&& forall|i: int| 0 <= i < f.len() ==> 0 <= #[trigger] f[i] < b.pseudo_seq(c, b.pieces.len() as int).len()
                    && b.pseudo_seq(c, b.pieces.len() as int)[f[i]] == b.legal_seq(c)[i]
            &&& forall|i: int, j: int| 0 <= i < j < f.len() ==> #[trigger] f[i] < #[trigger] f[j]
        },
{
    let ps = b.pseudo_seq(c, b.pieces.len() as int);
    let pred = |m: Move| !b.applied(m).in_check(c);
    let f = lemma_filter_picks(ps, pred);
    assert(b.legal_seq(c) == ps.filter(pred));
    assert forall|i: int| 0 <= i < b.legal_seq(c).len() implies {
        let m = #[trigger] b.legal_seq(c)[i];
        ps.contains(m) && !b.applied(m).in_check(c)
    } by {
        assert(ps[f[i]] == b.legal_seq(c)[i]);
    }
    assert forall|m: Move| #[trigger] ps.contains(m) && !b.applied(m).in_check(c) implies b.legal_seq(c).contains(m) by {
        let k = choose|k: int| 0 <= k < ps.len() && ps[k] == m;
        assert(pred(ps[k]));
    }
    assert(f.len() == b.legal_seq(c).len());
}

/// Number of living pieces among the first `n` of the piece list.
pub open spec fn live_count(b: BoardModel, n: int) -> int
    decreases n,
{
    if n <= 0 {
        0
    } else {
        live_count(b, n - 1) + if b.pieces[n - 1].alive { 1int } else { 0int }
    }
}

/// Number of living pieces.
pub open spec fn live_pieces(b: BoardModel) -> int {
    live_count(b, b.pieces.len() as int)
}

/// Index of the piece a move captures, or -1 when it captures none.
pub open spec fn captured_index(b: BoardModel, m: Move) -> int {
    match b.capture_square(m) {
        Some((cx, cy)) => b.sq(cx, cy) - 1,
        None => -1,
    }
}

/// A pseudo-legal move marked as castling is one of the castlings of its colour.
proof fn lemma_castling_pseudo(b: BoardModel, c: i32, m: Move)
    requires
        b.wf(),
        b.pseudo_move(c, m),
        m.is_castle,
    ensures
        b.castle_move(c, m),
{
    let i = choose|i: int| 0 <= i < b.pieces.len() && #[trigger] b.gen(i, c, m);
    let p = b.pieces[i];
    let (x, y) = (p.x as int, p.y as int);
    if p.ptype == PAWN {
    } else if p.ptype == KNIGHT || (p.ptype == KING && b.jump_move(x, y, c, KING, m)) {
        let j = choose|j: int| 0 <= j < 8 && #[trigger] b.step_move(
            x, y, c, crate::board::jump_off(p.ptype, j).0 as int, crate::board::jump_off(p.ptype, j).1 as int, m);
    } else if p.ptype == KING {
    } else {
        let j = choose|j: int| 0 <= j < crate::constants::slider_dir_count(p.ptype)
            && #[trigger] b.ray_move(x, y, c, crate::constants::slider_dir(p.ptype, j), m);
        let d = crate::constants::slider_dir(p.ptype, j);
        let n = choose|n: int| #[trigger] b.ray_target(x, y, c, d, n, m);
    }
}

/// After a pseudo-legal move, a piece is alive exactly when it was alive and
/// is not the captured piece; the piece list keeps its length.
proof fn lemma_alive_after(b: BoardModel, c: i32, m: Move, j: int)
    requires
        b.wf(),
        b.castle_homes_own(),
        b.pseudo_move(c, m),
        0 <= j < b.pieces.len(),
    ensures
        b.applied(m).pieces.len() == b.pieces.len(),
        b.applied(m).pieces[j].alive == (b.pieces[j].alive && j != captured_index(b, m)),
        captured_index(b, m) >= 0 ==> 0 <= captured_index(b, m) < b.pieces.len()
            && b.pieces[captured_index(b, m)].alive,
{
    let (fx, fy, tx, ty) = (m.fx as int, m.fy as int, m.tx as int, m.ty as int);
    if m.is_castle {
        lemma_castling_pseudo(b, c, m);
        assert(b.sq(tx, ty) == 0);
        assert(b.capture_square(m) is None);
        if b.sq(fx, fy) == 0 {
            assert(b.applied(m) == b);
        } else {
            lemma_alive_after_moving(b, c, m, j);
        }
    } else {
        lemma_pseudo_facts(b, c, m);
        lemma_alive_after_moving(b, c, m, j);
    }
}

/// The same, for a move from an occupied square of colour `c` onto another
/// square of the board, whose target holds no piece of colour `c` unless the
/// move is en passant, and which, when castling, is a castling of colour `c`.
proof fn lemma_alive_after_moving(b: BoardModel, c: i32, m: Move, j: int)
    requires
        b.wf(),
        0 <= j < b.pieces.len(),
        on_board(m.fx as int, m.fy as int),
        on_board(m.tx as int, m.ty as int),
        !(m.fx == m.tx && m.fy == m.ty),
        b.sq(m.fx as int, m.fy as int) != 0,
        b.at(m.fx as int, m.fy as int).color == c,
        m.is_en_passant ==> {
            &&& b.sq(m.tx as int, m.ty as int) == 0
            &&& m.ty == m.fy + pawn_dir(c)
            &&& (m.tx == m.fx + 1 || m.tx == m.fx - 1)
        },
        m.is_castle ==> b.castle_move(c, m),
    ensures
        b.applied(m).pieces.len() == b.pieces.len(),
        b.applied(m).pieces[j].alive == (b.pieces[j].alive && j != captured_index(b, m)),
        captured_index(b, m) >= 0 ==> 0 <= captured_index(b, m) < b.pieces.len()
            && b.pieces[captured_index(b, m)].alive,
{
    let (fx, fy, tx, ty) = (m.fx as int, m.fy as int, m.tx as int, m.ty as int);
    let id = b.sq(fx, fy);
    let mover = b.pieces[id - 1];
    let color = mover.color;
    let b1 = b.after_capture(m);
    let b2 = b1.after_relocate(m, id);
    let b3 = b2.after_castle_rook(m, color);
    let r = b.applied(m);
    assert(r.pieces == b3.pieces);
    assert(mover.x == fx && mover.y == fy && mover.alive);
    let q = captured_index(b, m);
    match b.capture_square(m) {
        Some((cx, cy)) => {
            assert(b.sq(cx, cy) != 0);
            assert(b.pieces[q].x == cx && b.pieces[q].y == cy && b.pieces[q].alive);
            assert(!(cx == fx && cy == fy));
            assert(q != id - 1);
        },
        None => {},
    }
    assert(b1.pieces.len() == b.pieces.len());
    assert(b1.pieces[id - 1] == mover);
    assert(forall|i: int| 0 <= i < b.pieces.len() ==> b1.pieces[i].alive == (b.pieces[i].alive && i != q));
    assert(b2.pieces[id - 1].alive);
    assert(forall|i: int| 0 <= i < b.pieces.len() ==> b2.pieces[i].alive == b1.pieces[i].alive);
    if m.is_castle {
        assert(b1 == b);
        let ry: int = if color == WHITE { 0 } else { 7 };
        let rf: int = if m.tx == 6 { 7 } else { 0 };
        assert(b.castle_move(c, m));
        let rid = b2.sq(rf, ry);
        assert(rid == b.sq(rf, ry));
        if rid != 0 {
            assert(b.pieces[rid - 1].alive);
            assert(b.pieces[rid - 1].x == rf && b.pieces[rid - 1].y == ry);
            assert(rid != id);
            assert(b2.pieces[rid - 1] == b.pieces[rid - 1]);
        }
    }
    assert(forall|i: int| 0 <= i < b.pieces.len() ==> b3.pieces[i].alive == b2.pieces[i].alive);
    assert(r.pieces[j].alive == b3.pieces[j].alive);
}

/// Counting living pieces after one piece `q` (if any) dies and no other changes.
proof fn lemma_live_count_kill(a: BoardModel, b: BoardModel, q: int, n: int)
    requires
        a.pieces.len() == b.pieces.len(),
        0 <= n <= a.pieces.len(),
        forall|j: int| 0 <= j < a.pieces.len() ==> #[trigger] b.pieces[j].alive == (a.pieces[j].alive && j != q),
    ensures
        live_count(b, n) == live_count(a, n) - if 0 <= q < n && a.pieces[q].alive { 1int } else { 0int },
    decreases n,
{
    if n > 0 {
        lemma_live_count_kill(a, b, q, n - 1);
        assert(b.pieces[n - 1].alive == (a.pieces[n - 1].alive && n - 1 != q));
    }
}

/// Playing a pseudo-legal move from a well-formed position in which no
/// castling right held has an enemy piece on its king's home square keeps it
/// well formed, keeps the piece list's length, revives no captured piece, and
/// lowers the number of living pieces by one exactly when the move captures
/// (en passant included).
pub proof fn lemma_applied_keeps_pieces(b: BoardModel, c: i32, m: Move)
    requires
        b.wf(),
        b.castle_homes_own(),
        b.pseudo_move(c, m),
    ensures
        b.applied(m).wf(),
        b.applied(m).pieces.len() == b.pieces.len(),
        forall|j: int| 0 <= j < b.pieces.len() && #[trigger] b.applied(m).pieces[j].alive ==> b.pieces[j].alive,
        live_pieces(b.applied(m)) == live_pieces(b) - if b.capture_square(m) is Some { 1int } else { 0int },
{
    lemma_applied_keeps_wf(b, c, m);
    let r = b.applied(m);
    lemma_alive_after(b, c, m, 0);
    assert forall|j: int| 0 <= j < b.pieces.len() implies #[trigger] r.pieces[j].alive
        == (b.pieces[j].alive && j != captured_index(b, m)) by {
        lemma_alive_after(b, c, m, j);
    }
    lemma_live_count_kill(b, r, captured_index(b, m), b.pieces.len() as int);
}

/// The colour opposing `c`.
pub open spec fn opponent(c: i32) -> i32 {
    if c == WHITE { BLACK } else { WHITE }
}

/// The back rank of colour `c`.
pub open spec fn home_rank(c: i32) -> int {
    if c == WHITE { 0 } else { 7 }
}

/// The halfmove clock after a move from an occupied square: a capture
/// (the target square occupied, or for en passant the square of the pawn
/// taken) or a pawn move resets it to 0; any other move adds one.
pub proof fn lemma_halfmove_clock(b: BoardModel, m: Move)
    requires
        b.wf(),
        on_board(m.fx as int, m.fy as int),
        b.sq(m.fx as int, m.fy as int) != 0,
        on_board(m.tx as int, m.ty as int),
        m.is_en_passant ==> on_board(m.tx as int, m.ty - pawn_dir(b.at(m.fx as int, m.fy as int).color)),
        b.halfmove < u32::MAX,
    ensures
        ({
            let victim_y: int = if m.is_en_passant {
                m.ty - pawn_dir(b.at(m.fx as int, m.fy as int).color)
            } else {
                m.ty as int
            };
            let captures = b.sq(m.tx as int, victim_y) != 0;
            let pawn = b.at(m.fx as int, m.fy as int).ptype == PAWN;
            &&& captures ==> b.applied(m).halfmove == 0
            &&& pawn ==> b.applied(m).halfmove == 0
            &&& !captures && !pawn ==> b.applied(m).halfmove == b.halfmove + 1
        }),
{
    let victim_y: int = if m.is_en_passant {
        m.ty - pawn_dir(b.at(m.fx as int, m.fy as int).color)
    } else {
        m.ty as int
    };
    let v = b.sq(m.tx as int, victim_y);
    if v != 0 {
        assert(v as int <= b.pieces.len());
        let q = b.pieces[v - 1];
        assert(PAWN <= q.ptype);
        assert(b.captured_type(m) == q.ptype);
    } else {
        assert(b.capture_square(m) is None);
    }
}

/// A castling move is generated only when the castling side's king square,
/// the square the king crosses and the square it lands on are not attacked
/// by the other side: no side castles out of, through or into check.
pub proof fn lemma_castling_never_through_check(b: BoardModel, c: i32, m: Move)
    requires
        b.wf(),
        c == WHITE || c == BLACK,
        b.pseudo_move(c, m),
        m.is_castle,
    ensures
        m.fx == 4 && m.fy == home_rank(c) && m.ty == home_rank(c),
        m.tx == 6 || m.tx == 2,
        !b.attacked(4, home_rank(c), opponent(c)),
        !b.attacked((4 + m.tx) / 2, home_rank(c), opponent(c)),
        !b.attacked(m.tx as int, home_rank(c), opponent(c)),
        m.promotion == 0 && !m.is_en_passant,
        b.castling & castling_flag(c, m.tx == 6) != 0,
        m.tx == 6 ==> b.sq(5, home_rank(c)) == 0 && b.sq(6, home_rank(c)) == 0 && b.sq(7, home_rank(c)) != 0,
        m.tx == 2 ==> b.sq(1, home_rank(c)) == 0 && b.sq(2, home_rank(c)) == 0 && b.sq(3, home_rank(c)) == 0
            && b.sq(0, home_rank(c)) != 0,
{
    lemma_castling_pseudo(b, c, m);
}

/// The castling right of colour `c` on the king's side or the queen's side.
pub open spec fn castling_flag(c: i32, kingside: bool) -> u8 {
    if c == WHITE {
        if kingside { CASTLE_WK } else { CASTLE_WQ }
    } else {
        if kingside { CASTLE_BK } else { CASTLE_BQ }
    }
}

/// Castling is generated whenever the rules allow it: the right is held,
/// the squares between king and rook are empty, the corner is occupied, the
/// king's square, the square it crosses and its target are not attacked by
/// the other side, and the side has a living king.
pub proof fn lemma_castling_complete(b: BoardModel, c: i32, kingside: bool, k: int)
    requires
        b.wf(),
        c == WHITE || c == BLACK,
        b.castling & castling_flag(c, kingside) != 0,
        kingside ==> b.sq(5, home_rank(c)) == 0 && b.sq(6, home_rank(c)) == 0 && b.sq(7, home_rank(c)) != 0,
        !kingside ==> b.sq(1, home_rank(c)) == 0 && b.sq(2, home_rank(c)) == 0 && b.sq(3, home_rank(c)) == 0
            && b.sq(0, home_rank(c)) != 0,
        !b.attacked(4, home_rank(c), opponent(c)),
        !b.attacked(if kingside { 5 } else { 3 }, home_rank(c), opponent(c)),
        !b.attacked(if kingside { 6 } else { 2 }, home_rank(c), opponent(c)),
        0 <= k < b.pieces.len(),
        b.pieces[k].alive && b.pieces[k].color == c && b.pieces[k].ptype == KING,
    ensures
        b.pseudo_move(c, Move {
            fx: 4,
            fy: home_rank(c) as i32,
            tx: if kingside { 6 } else { 2 },
            ty: home_rank(c) as i32,
            promotion: 0,
            is_en_passant: false,
            is_castle: true,
        }),
{
    let ry = home_rank(c);
    let m = Move { fx: 4, fy: ry as i32, tx: if kingside { 6 } else { 2 }, ty: ry as i32, promotion: 0, is_en_passant: false, is_castle: true };
    assert((-c) as i32 == opponent(c));
    assert(b.castle_move(c, m));
    assert(b.piece_move(b.pieces[k], c, m));
    assert(b.gen(k, c, m));
}

/// A side whose king stands in check on its home square has no legal
/// castling move.
pub proof fn lemma_no_castling_out_of_check(b: BoardModel, c: i32, m: Move)
    requires
        b.wf(),
        c == WHITE || c == BLACK,
        b.king_pos(c) == Some((4i32, home_rank(c) as i32)),
        b.in_check(c),
        m.is_castle,
    ensures
        !b.legal_move(c, m),
        !b.pseudo_move(c, m),
{
    if b.pseudo_move(c, m) {
        lemma_castling_never_through_check(b, c, m);
        assert(b.attacked(4, home_rank(c), (-c) as i32));
        assert((-c) as i32 == opponent(c));
    }
}

/// The FNV prime is odd, so multiplying by it modulo 2^64 can be undone:
/// `FNV_PRIME_INVERSE` is its inverse.
pub const FNV_PRIME_INVERSE: u64 = 0xce96_5057_aff6_957b;

proof fn lemma_fnv_prime_cancels(x: u64)
    ensures
        ((x.wrapping_mul(0x0100_0000_01b3u64) as int) * (FNV_PRIME_INVERSE as int))
            % 0x1_0000_0000_0000_0000int == x as int,
{
    let m: int = 0x1_0000_0000_0000_0000int;
    let p: int = 0x0100_0000_01b3int;
    let q: int = FNV_PRIME_INVERSE as int;
    assert(p * q == 1 + 887285111055int * m);
    let xp = (x as int * p) % m;
    vstd::arithmetic::div_mod::lemma_mod_pos_bound(x as int * p, m);
    assert(x.wrapping_mul(0x0100_0000_01b3u64) as int == xp);
    vstd::arithmetic::div_mod::lemma_mul_mod_noop_left(x as int * p, q, m);
    assert((x as int * p) * q == m * (x as int * 887285111055int) + x as int) by (nonlinear_arith)
        requires
            p * q == 1 + 887285111055int * m,
    ;
    vstd::arithmetic::div_mod::lemma_mod_multiples_vanish(x as int * 887285111055int, x as int, m);
    vstd::arithmetic::div_mod::lemma_small_mod(x as nat, m as nat);
}

/// One FNV step is one-to-one in the running hash for a fixed input, and in
/// the input for a fixed running hash.
proof fn lemma_fnv_one_to_one(h1: u64, v1: u64, h2: u64, v2: u64)
    requires
        crate::board::fnv(h1, v1) == crate::board::fnv(h2, v2),
    ensures
        h1 ^ v1 == h2 ^ v2,
{
    lemma_fnv_prime_cancels(h1 ^ v1);
    lemma_fnv_prime_cancels(h2 ^ v2);
}

/// The same position with other castling rights (or side to move).
pub open spec fn with_state(b: BoardModel, side: i32, castling: u8) -> BoardModel {
    BoardModel { side_to_move: side, castling, ..b }
}

proof fn lemma_hash_squares_state_free(b: BoardModel, side: i32, castling: u8, k: int)
    requires
        0 <= k <= 64,
    ensures
        with_state(b, side, castling).hash_squares(k) == b.hash_squares(k),
    decreases k,
{
    if k > 0 {
        lemma_hash_squares_state_free(b, side, castling, k - 1);
    }
}

/// Fingerprints tell castling rights apart: two positions showing the same
/// pieces on every square, with the same side to move and en-passant square
/// but different castling rights, have different fingerprints.
pub proof fn lemma_fingerprint_sees_castling(a: BoardModel, b: BoardModel)
    requires
        a.looks_like(with_state(b, b.side_to_move, a.castling)),
        a.castling != b.castling,
    ensures
        a.fingerprint() != b.fingerprint(),
{
    let b2 = with_state(b, b.side_to_move, a.castling);
    lemma_hash_squares_same(a, b2, 64);
    lemma_hash_squares_state_free(b, b.side_to_move, a.castling, 64);
    let s: u64 = if a.side_to_move == WHITE { 1u64 } else { 2u64 };
    let h1 = crate::board::fnv(a.hash_squares(64), s);
    assert(h1 == crate::board::fnv(b.hash_squares(64), if b.side_to_move == WHITE { 1u64 } else { 2u64 }));
    let ca = a.castling as u64;
    let cb = b.castling as u64;
    assert(ca != cb);
    assert(h1 ^ ca != h1 ^ cb) by (bit_vector)
        requires
            ca != cb,
    ;
    let h2a = crate::board::fnv(h1, ca);
    let h2b = crate::board::fnv(h1, cb);
    if h2a == h2b {
        lemma_fnv_one_to_one(h1, ca, h1, cb);
    }
    match a.en_passant {
        Some((ex, ey)) => {
            let e: u64 = 0x100u64 | ((#[verifier::truncate] (ex as u64)) << 4u64) | (#[verifier::truncate] (ey as u64));
            if crate::board::fnv(h2a, e) == crate::board::fnv(h2b, e) {
                lemma_fnv_one_to_one(h2a, e, h2b, e);
                assert(h2a == h2b) by (bit_vector)
                    requires
                        h2a ^ e == h2b ^ e,
                ;
            }
        },
        None => {},
    }
}

/// Fingerprints tell the side to move apart: two positions showing the same
/// pieces on every square, with the same castling rights and en-passant
/// square but a different side to move, have different fingerprints.
pub proof fn lemma_fingerprint_sees_side_to_move(a: BoardModel, b: BoardModel)
    requires
        a.looks_like(with_state(b, a.side_to_move, b.castling)),
        (a.side_to_move == WHITE) != (b.side_to_move == WHITE),
    ensures
        a.fingerprint() != b.fingerprint(),
{
    let b2 = with_state(b, a.side_to_move, b.castling);
    lemma_hash_squares_same(a, b2, 64);
    lemma_hash_squares_state_free(b, a.side_to_move, b.castling, 64);
    let hs = a.hash_squares(64);
    let sa: u64 = if a.side_to_move == WHITE { 1u64 } else { 2u64 };
    let sb: u64 = if b.side_to_move == WHITE { 1u64 } else { 2u64 };
    assert(hs ^ sa != hs ^ sb) by (bit_vector)
        requires
            sa != sb,
    ;
    let h1a = crate::board::fnv(hs, sa);
    let h1b = crate::board::fnv(hs, sb);
    if h1a == h1b {
        lemma_fnv_one_to_one(hs, sa, hs, sb);
    }
    let c = a.castling as u64;
    let h2a = crate::board::fnv(h1a, c);
    let h2b = crate::board::fnv(h1b, c);
    if h2a == h2b {
        lemma_fnv_one_to_one(h1a, c, h1b, c);
        assert(h1a == h1b) by (bit_vector)
            requires
                h1a ^ c == h1b ^ c,
        ;
    }
    match a.en_passant {
        Some((ex, ey)) => {
            let e: u64 = 0x100u64 | ((#[verifier::truncate] (ex as u64)) << 4u64) | (#[verifier::truncate] (ey as u64));
            if crate::board::fnv(h2a, e) == crate::board::fnv(h2b, e) {
                lemma_fnv_one_to_one(h2a, e, h2b, e);
                assert(h2a == h2b) by (bit_vector)
                    requires
                        h2a ^ e == h2b ^ e,
                ;
            }
        },
        None => {},
    }
}

/// What a pseudo-legal move other than castling does to the position: the
/// moving piece leaves its square and stands on the target (promoted when
/// the move names a promotion), an en-passant capture also empties the
/// square of the pawn taken, every other square keeps its occupant, the side
/// to move passes to the other colour, the fullmove number counts up after
/// Black's move, and the en-passant square is the square a pawn's double
/// step passed over, and none otherwise.
pub proof fn lemma_move_effects(b: BoardModel, c: i32, m: Move)
    requires
        b.wf(),
        b.pseudo_move(c, m),
        !m.is_castle,
        b.fullmove < u32::MAX,
    ensures
        ({
            let (fx, fy, tx, ty) = (m.fx as int, m.fy as int, m.tx as int, m.ty as int);
            let id = b.sq(fx, fy);
            let mover = b.pieces[id - 1];
            let r = b.applied(m);
            &&& r.sq(tx, ty) == id
            &&& r.sq(fx, fy) == 0
            &&& m.is_en_passant ==> r.sq(tx, fy) == 0
            &&& forall|x: int, y: int| #![trigger r.sq(x, y)]
                    on_board(x, y) && !(x == fx && y == fy) && !(x == tx && y == ty)
                    && !(m.is_en_passant && x == tx && y == fy) ==> r.sq(x, y) == b.sq(x, y)
            &&& r.pieces.len() == b.pieces.len()
            &&& r.pieces[id - 1].x == m.tx && r.pieces[id - 1].y == m.ty
            &&& r.pieces[id - 1].alive && r.pieces[id - 1].color == mover.color
            &&& r.pieces[id - 1].ptype == (if m.promotion != 0 { m.promotion } else { mover.ptype })
            &&& r.side_to_move == -b.side_to_move
            &&& r.fullmove == (if b.side_to_move == BLACK { b.fullmove + 1 } else { b.fullmove as int })
            &&& r.en_passant == (if mover.ptype == PAWN && (ty - fy == 2 || ty - fy == -2) {
                    Some((m.fx, ((fy + ty) / 2) as i32))
                } else {
                    None
                })
        }),
{
    lemma_pseudo_facts(b, c, m);
    let (fx, fy, tx, ty) = (m.fx as int, m.fy as int, m.tx as int, m.ty as int);
    let id = b.sq(fx, fy);
    let mover = b.pieces[id - 1];
    assert(mover.alive && mover.x == fx && mover.y == fy);
    let b1 = b.after_capture(m);
    let b2 = b1.after_relocate(m, id);
    let r = b.applied(m);
    assert(r.squares == b2.squares && r.pieces == b2.pieces);
    assert(b1.pieces.len() == b.pieces.len());
    match b.capture_square(m) {
        Some((cx, cy)) => {
            let k = b.sq(cx, cy);
            assert(b.pieces[k - 1].x == cx && b.pieces[k - 1].y == cy);
            assert(k != id);
            if m.is_en_passant {
                assert(cy == fy);
                crate::board::lemma_set_sq(b.kill(k - 1), cx, cy, 0);
            }
        },
        None => {},
    }
    assert(b1.pieces[id - 1] == mover);
    assert(forall|x: int, y: int| on_board(x, y) && !(m.is_en_passant && x == tx && y == fy)
        ==> #[trigger] b1.sq(x, y) == b.sq(x, y));
    assert(m.is_en_passant ==> b1.sq(tx, fy) == 0);
    crate::board::lemma_set_sq(b1, fx, fy, 0);
    crate::board::lemma_set_sq(b1.set_sq(fx, fy, 0), tx, ty, id);
}

/// The rights update, bit by bit: a right stays exactly when it was held,
/// the move is not made by that colour's king, not by a rook leaving that
/// corner, and does not capture a rook of that colour on that corner.
proof fn lemma_castling_after_exact(
    castling: u8,
    m: Move,
    color: i32,
    t0: u8,
    ct: u8,
    cc: i32,
    cp: Option<(int, int)>,
    f: u8,
    col: i32,
    rx: int,
    ry: int,
)
    requires
        castle_right(f, col, rx, ry),
        color == WHITE || color == BLACK,
        ct == ROOK ==> cc == WHITE || cc == BLACK,
    ensures
        (castling_after(castling, m, color, t0, ct, cc, cp) & f != 0) <==> {
            &&& castling & f != 0
            &&& !(t0 == KING && color == col)
            &&& !(t0 == ROOK && color == col && m.fx == rx && m.fy == ry)
            &&& !(ct == ROOK && cc == col && cp == Some((rx, ry)))
        },
{
    let c1: u8 = if t0 == KING {
        if color == WHITE { castling & !(CASTLE_WK | CASTLE_WQ) } else { castling & !(CASTLE_BK | CASTLE_BQ) }
    } else {
        castling
    };
    let c2: u8 = if t0 == ROOK {
        if color == WHITE {
            if m.fx == 0 && m.fy == 0 { c1 & !CASTLE_WQ } else if m.fx == 7 && m.fy == 0 { c1 & !CASTLE_WK } else { c1 }
        } else {
            if m.fx == 0 && m.fy == 7 { c1 & !CASTLE_BQ } else if m.fx == 7 && m.fy == 7 { c1 & !CASTLE_BK } else { c1 }
        }
    } else {
        c1
    };
    lemma_rights_bits(castling);
    lemma_rights_bits(c1);
    lemma_rights_bits(c2);
}

/// How a move from an occupied square changes the castling rights, right by
/// right: a right is kept exactly when it was held, the moving piece is not
/// that colour's king, is not a rook of that colour leaving that corner, and
/// the move does not capture a rook of that colour standing on that corner
/// (on the target square, or for en passant on the square of the pawn taken).
/// No right is ever gained.
pub proof fn lemma_castling_rights_update(b: BoardModel, m: Move, f: u8, col: i32, rx: int, ry: int)
    requires
        b.wf(),
        on_board(m.fx as int, m.fy as int),
        b.sq(m.fx as int, m.fy as int) != 0,
        on_board(m.tx as int, m.ty as int),
        m.is_en_passant ==> on_board(m.tx as int, m.ty - pawn_dir(b.at(m.fx as int, m.fy as int).color)),
        castle_right(f, col, rx, ry),
    ensures
        ({
            let mover = b.at(m.fx as int, m.fy as int);
            let vy: int = if m.is_en_passant { m.ty - pawn_dir(mover.color) } else { m.ty as int };
            let rook_taken = m.tx == rx && vy == ry && b.sq(rx, ry) != 0
                && b.at(rx, ry).ptype == ROOK && b.at(rx, ry).color == col;
            (b.applied(m).castling & f != 0) <==> {
                &&& b.castling & f != 0
                &&& !(mover.ptype == KING && mover.color == col)
                &&& !(mover.ptype == ROOK && mover.color == col && m.fx == rx && m.fy == ry)
                &&& !rook_taken
            }
        }),
{
    let id = b.sq(m.fx as int, m.fy as int);
    let mover = b.pieces[id - 1];
    let b3 = b.after_capture(m).after_relocate(m, id).after_castle_rook(m, mover.color);
    assert(b3.castling == b.castling);
    let cp = b.capture_square(m);
    match cp {
        Some((cx, cy)) => {
            let k = b.sq(cx, cy);
            assert(k as int <= b.pieces.len());
            assert(b.pieces[k - 1].color == WHITE || b.pieces[k - 1].color == BLACK);
        },
        None => {},
    }
    lemma_castling_after_exact(
        b.castling, m, mover.color, mover.ptype, b.captured_type(m), b.captured_color(m), cp, f, col, rx, ry);
}

/// What castling does to the squares, when the king's home square holds a
/// piece of the castling colour: that piece lands on the king's target, the
/// rook in the corner on that side jumps to the square the king crossed,
/// both home squares are left empty, and every other square keeps its
/// occupant.
pub proof fn lemma_castling_effects(b: BoardModel, c: i32, m: Move)
    requires
        b.wf(),
        c == WHITE || c == BLACK,
        b.pseudo_move(c, m),
        m.is_castle,
        b.sq(4, home_rank(c)) != 0,
        b.at(4, home_rank(c)).color == c,
    ensures
        ({
            let ry = home_rank(c);
            let kt = m.tx as int;
            let rf: int = if kt == 6 { 7 } else { 0 };
            let rt: int = if kt == 6 { 5 } else { 3 };
            let r = b.applied(m);
            &&& r.sq(kt, ry) == b.sq(4, ry)
            &&& r.sq(rt, ry) == b.sq(rf, ry)
            &&& r.sq(4, ry) == 0
            &&& r.sq(rf, ry) == 0
            &&& forall|x: int, y: int| #![trigger r.sq(x, y)]
                    on_board(x, y) && !(y == ry && (x == 4 || x == kt || x == rf || x == rt))
                    ==> r.sq(x, y) == b.sq(x, y)
            &&& r.pieces[b.sq(4, ry) - 1].x == kt && r.pieces[b.sq(4, ry) - 1].y == ry
            &&& r.pieces[b.sq(rf, ry) - 1].x == rt && r.pieces[b.sq(rf, ry) - 1].y == ry
        }),
{
    lemma_castling_pseudo(b, c, m);
    let ry = home_rank(c);
    let kt = m.tx as int;
    let rf: int = if kt == 6 { 7 } else { 0 };
    let rt: int = if kt == 6 { 5 } else { 3 };
    let id = b.sq(4, ry);
    let mover = b.pieces[id - 1];
    assert(mover.alive && mover.x == 4 && mover.y == ry);
    let b1 = b.after_capture(m);
    assert(b.capture_square(m) is None);
    assert(b1 == b);
    let b2 = b1.after_relocate(m, id);
    crate::board::lemma_set_sq(b, 4, ry, 0);
    crate::board::lemma_set_sq(b.set_sq(4, ry, 0), kt, ry, id);
    let rid = b2.sq(rf, ry);
    assert(rid == b.sq(rf, ry));
    assert(rid != 0);
    assert(b.pieces[rid - 1].x == rf && b.pieces[rid - 1].y == ry);
    assert(rid != id);
    crate::board::lemma_set_sq(b2, rf, ry, 0);
    crate::board::lemma_set_sq(b2.set_sq(rf, ry, 0), rt, ry, rid);
    let b3 = b2.after_castle_rook(m, mover.color);
    let r = b.applied(m);
    assert(r.squares == b3.squares && r.pieces == b3.pieces);
}

/// The shape of a pawn's pseudo-legal move: one square forward onto an empty
/// square, two squares forward from its start rank over two empty squares,
/// or one square diagonally forward onto an enemy or onto the en-passant
/// square; apart from en passant, it promotes, to a queen, rook, bishop or
/// knight, exactly when it reaches its last rank.
pub proof fn lemma_pawn_move_shape(b: BoardModel, c: i32, m: Move)
    requires
        b.wf(),
        c == WHITE || c == BLACK,
        b.pseudo_move(c, m),
        !m.is_castle,
        b.sq(m.fx as int, m.fy as int) != 0,
        b.at(m.fx as int, m.fy as int).ptype == PAWN,
    ensures
        ({
            let (fx, fy, tx, ty) = (m.fx as int, m.fy as int, m.tx as int, m.ty as int);
            let fwd: int = if c == WHITE { 1 } else { -1 };
            let last: int = if c == WHITE { 7 } else { 0 };
            &&& on_board(tx, ty)
            &&& {
                ||| tx == fx && ty == fy + fwd && b.sq(tx, ty) == 0
                ||| tx == fx && ty == fy + 2 * fwd && fy == (if c == WHITE { 1int } else { 6int })
                        && b.sq(fx, fy + fwd) == 0 && b.sq(tx, ty) == 0
                ||| (tx == fx + 1 || tx == fx - 1) && ty == fy + fwd && !m.is_en_passant
                        && b.sq(tx, ty) != 0 && b.at(tx, ty).color != c
                ||| (tx == fx + 1 || tx == fx - 1) && ty == fy + fwd && m.is_en_passant
                        && b.en_passant == Some((m.tx, m.ty))
            }
            &&& !m.is_en_passant ==> (ty == last <==> m.promotion != 0)
            &&& m.promotion != 0 ==> (m.promotion == QUEEN || m.promotion == ROOK
                    || m.promotion == BISHOP || m.promotion == KNIGHT)
            &&& m.is_en_passant ==> m.promotion == 0
        }),
{
    let i = choose|i: int| 0 <= i < b.pieces.len() && #[trigger] b.gen(i, c, m);
    let p = b.pieces[i];
    let (x, y) = (p.x as int, p.y as int);
    lemma_pseudo_facts(b, c, m);
    assert(on_board(x, y));
    assert(b.sq(x, y) == i + 1);
    if p.ptype == PAWN {
        assert(b.pawn_move(x, y, c, m));
        assert(m.fx == x && m.fy == y);
    } else if p.ptype == KNIGHT || (p.ptype == KING && b.jump_move(x, y, c, KING, m)) {
        let j = choose|j: int| 0 <= j < 8 && #[trigger] b.step_move(
            x, y, c, crate::board::jump_off(p.ptype, j).0 as int, crate::board::jump_off(p.ptype, j).1 as int, m);
        assert(m.fx == x && m.fy == y);
    } else if p.ptype == KING {
        assert(b.castle_move(c, m));
    } else {
        let j = choose|j: int| 0 <= j < crate::constants::slider_dir_count(p.ptype)
            && #[trigger] b.ray_move(x, y, c, crate::constants::slider_dir(p.ptype, j), m);
        let d = crate::constants::slider_dir(p.ptype, j);
        let n = choose|n: int| #[trigger] b.ray_target(x, y, c, d, n, m);
        assert(m.fx == x && m.fy == y);
    }
}

/// One FNV step keeps two different running hashes apart.
proof fn lemma_fnv_keeps_apart(h1: u64, h2: u64, v: u64)
    requires
        h1 != h2,
    ensures
        crate::board::fnv(h1, v) != crate::board::fnv(h2, v),
{
    if crate::board::fnv(h1, v) == crate::board::fnv(h2, v) {
        lemma_fnv_one_to_one(h1, v, h2, v);
        assert(h1 == h2) by (bit_vector)
            requires
                h1 ^ v == h2 ^ v,
        ;
    }
}

/// One FNV step tells two different inputs apart.
proof fn lemma_fnv_separates(h: u64, v1: u64, v2: u64)
    requires
        v1 != v2,
    ensures
        crate::board::fnv(h, v1) != crate::board::fnv(h, v2),
{
    if crate::board::fnv(h, v1) == crate::board::fnv(h, v2) {
        lemma_fnv_one_to_one(h, v1, h, v2);
        assert(v1 == v2) by (bit_vector)
            requires
                h ^ v1 == h ^ v2,
        ;
    }
}

/// The fingerprint's final steps (side to move, castling rights, en-passant
/// square) keep apart two positions whose square hashes differ, when those
/// three agree.
proof fn lemma_fingerprint_tail_apart(a: BoardModel, b: BoardModel)
    requires
        a.hash_squares(64) != b.hash_squares(64),
        a.side_to_move == b.side_to_move,
        a.castling == b.castling,
        a.en_passant == b.en_passant,
    ensures
        a.fingerprint() != b.fingerprint(),
{
    let s: u64 = if a.side_to_move == WHITE { 1u64 } else { 2u64 };
    lemma_fnv_keeps_apart(a.hash_squares(64), b.hash_squares(64), s);
    let h1a = crate::board::fnv(a.hash_squares(64), s);
    let h1b = crate::board::fnv(b.hash_squares(64), s);
    lemma_fnv_keeps_apart(h1a, h1b, a.castling as u64);
    let h2a = crate::board::fnv(h1a, a.castling as u64);
    let h2b = crate::board::fnv(h1b, a.castling as u64);
    match a.en_passant {
        Some((ex, ey)) => {
            let e: u64 = 0x100u64 | ((#[verifier::truncate] (ex as u64)) << 4u64) | (#[verifier::truncate] (ey as u64));
            lemma_fnv_keeps_apart(h2a, h2b, e);
        },
        None => {},
    }
}

/// Square codes tell apart an empty square from an occupied one, and two
/// pieces of different type or colour class.
proof fn lemma_square_code_apart(t1: u8, w1: bool, t2: u8, w2: bool)
    requires
        1 <= t1 <= 6,
        1 <= t2 <= 6,
    ensures
        (t1 | if w1 { 0u8 } else { 0x40u8 }) != 0,
        (t1 != t2 || w1 != w2) ==> (t1 | if w1 { 0u8 } else { 0x40u8 }) != (t2 | if w2 { 0u8 } else { 0x40u8 }),
{
    let m1: u8 = if w1 { 0u8 } else { 0x40u8 };
    let m2: u8 = if w2 { 0u8 } else { 0x40u8 };
    assert((t1 | m1) != 0 && ((t1 != t2 || m1 != m2) ==> (t1 | m1) != (t2 | m2))) by (bit_vector)
        requires
            1 <= t1 <= 6,
            1 <= t2 <= 6,
            m1 == 0 || m1 == 0x40,
            m2 == 0 || m2 == 0x40,
    ;
}

/// Two positions showing the same thing on square `k` (row-major) have the same code there.
pub open spec fn same_show(a: BoardModel, b: BoardModel, x: int, y: int) -> bool {
    &&& (a.sq(x, y) == 0) == (b.sq(x, y) == 0)
    &&& a.sq(x, y) != 0 ==> {
            &&& a.at(x, y).ptype == b.at(x, y).ptype
            &&& (a.at(x, y).color == WHITE) == (b.at(x, y).color == WHITE)
        }
}

proof fn lemma_hash_squares_split(a: BoardModel, b: BoardModel, k0: int, k: int)
    requires
        0 <= k0 < 64,
        0 <= k <= 64,
        forall|j: int| 0 <= j < 64 && j != k0 ==> #[trigger] a.square_code(j % 8, j / 8) == b.square_code(j % 8, j / 8),
        a.square_code(k0 % 8, k0 / 8) != b.square_code(k0 % 8, k0 / 8),
    ensures
        k <= k0 ==> a.hash_squares(k) == b.hash_squares(k),
        k > k0 ==> a.hash_squares(k) != b.hash_squares(k),
    decreases k,
{
    if k > 0 {
        lemma_hash_squares_split(a, b, k0, k - 1);
        let j = k - 1;
        let ca = a.square_code(j % 8, j / 8) as u64;
        let cb = b.square_code(j % 8, j / 8) as u64;
        if j == k0 {
            lemma_fnv_separates(a.hash_squares(j), ca, cb);
        } else if j > k0 {
            assert(ca == cb);
            lemma_fnv_keeps_apart(a.hash_squares(j), b.hash_squares(j), ca);
        }
    }
}

/// Fingerprints tell apart two well-formed positions that differ on exactly
/// one square (one empty and the other not, or pieces of different type or
/// colour), with the same side to move, castling rights and en-passant square.
pub proof fn lemma_fingerprint_sees_one_square(a: BoardModel, b: BoardModel, x0: int, y0: int)
    requires
        a.wf(),
        b.wf(),
        on_board(x0, y0),
        forall|x: int, y: int| on_board(x, y) && !(x == x0 && y == y0) ==> #[trigger] same_show(a, b, x, y),
        !same_show(a, b, x0, y0),
        a.side_to_move == b.side_to_move,
        a.castling == b.castling,
        a.en_passant == b.en_passant,
    ensures
        a.fingerprint() != b.fingerprint(),
{
    let k0 = y0 * 8 + x0;
    assert(k0 % 8 == x0 && k0 / 8 == y0);
    assert forall|j: int| 0 <= j < 64 && j != k0 implies #[trigger] a.square_code(j % 8, j / 8) == b.square_code(j % 8, j / 8) by {
        let (x, y) = (j % 8, j / 8);
        assert(on_board(x, y));
        assert(same_show(a, b, x, y));
    }
    let (sa, sb) = (a.sq(x0, y0), b.sq(x0, y0));
    if sa != 0 {
        assert(sa as int <= a.pieces.len());
        assert(1 <= a.at(x0, y0).ptype <= 6);
    }
    if sb != 0 {
        assert(sb as int <= b.pieces.len());
        assert(1 <= b.at(x0, y0).ptype <= 6);
    }
    if sa != 0 && sb != 0 {
        lemma_square_code_apart(a.at(x0, y0).ptype, a.at(x0, y0).color == WHITE, b.at(x0, y0).ptype, b.at(x0, y0).color == WHITE);
    } else if sa != 0 {
        lemma_square_code_apart(a.at(x0, y0).ptype, a.at(x0, y0).color == WHITE, 1, true);
    } else if sb != 0 {
        lemma_square_code_apart(b.at(x0, y0).ptype, b.at(x0, y0).color == WHITE, 1, true);
    }
    assert(a.square_code(k0 % 8, k0 / 8) != b.square_code(k0 % 8, k0 / 8));
    lemma_hash_squares_split(a, b, k0, 64);
    lemma_fingerprint_tail_apart(a, b);
}

/// Fingerprints tell en-passant squares apart: two positions showing the
/// same pieces on every square, with the same side to move and castling
/// rights, whose en-passant squares are different squares of the board,
/// have different fingerprints.
pub proof fn lemma_fingerprint_sees_en_passant(a: BoardModel, b: BoardModel)
    requires
        a.looks_like((BoardModel { en_passant: a.en_passant, ..b })),
        (a.en_passant is Some),
        (b.en_passant is Some),
        a.en_passant != b.en_passant,
        on_board(a.en_passant.unwrap().0 as int, a.en_passant.unwrap().1 as int),
        on_board(b.en_passant.unwrap().0 as int, b.en_passant.unwrap().1 as int),
    ensures
        a.fingerprint() != b.fingerprint(),
{
    let b2 = BoardModel { en_passant: a.en_passant, ..b };
    lemma_hash_squares_same(a, b2, 64);
    lemma_hash_squares_ep_free(b, a.en_passant, 64);
    let s: u64 = if a.side_to_move == WHITE { 1u64 } else { 2u64 };
    let h2 = crate::board::fnv(crate::board::fnv(a.hash_squares(64), s), a.castling as u64);
    assert(h2 == crate::board::fnv(crate::board::fnv(b.hash_squares(64), if b.side_to_move == WHITE { 1u64 } else { 2u64 }), b.castling as u64));
    let (ax, ay) = a.en_passant.unwrap();
    let (bx, by) = b.en_passant.unwrap();
    let xa: u64 = #[verifier::truncate] (ax as u64);
    let ya: u64 = #[verifier::truncate] (ay as u64);
    let xb: u64 = #[verifier::truncate] (bx as u64);
    let yb: u64 = #[verifier::truncate] (by as u64);
    assert(xa == ax as int && ya == ay as int && xb == bx as int && yb == by as int);
    let ea: u64 = 0x100u64 | (xa << 4u64) | ya;
    let eb: u64 = 0x100u64 | (xb << 4u64) | yb;
    assert(ea != eb) by (bit_vector)
        requires
            xa < 8 && ya < 8 && xb < 8 && yb < 8,
            xa != xb || ya != yb,
            ea == 0x100u64 | (xa << 4u64) | ya,
            eb == 0x100u64 | (xb << 4u64) | yb,
    ;
    lemma_fnv_separates(h2, ea, eb);
}

proof fn lemma_hash_squares_ep_free(b: BoardModel, ep: Option<(i32, i32)>, k: int)
    requires
        0 <= k <= 64,
    ensures
        (BoardModel { en_passant: ep, ..b }).hash_squares(k) == b.hash_squares(k),
    decreases k,
{
    if k > 0 {
        lemma_hash_squares_ep_free(b, ep, k - 1);
    }
}

} // verus!
