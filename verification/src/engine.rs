//! The integer logic behind the browser-facing engine interface: piece and
//! move encodings, move lookup, game status and extra-algorithm indices.

use vstd::prelude::*;
use crate::board::{Board, BoardModel, Move};
use crate::constants::{on_board, WHITE, BLACK, N_EXTRAS};

verus! {

/// Code of a piece for the browser shell: white = type, black = type + 8.
pub open spec fn piece_code(ptype: u8, color: i32) -> u8 {
    if color == WHITE { ptype } else { (ptype + 8) as u8 }
}

/// Encode a piece: 0 stays empty, white = type (1..6), black = type + 8 (9..14).
pub fn encode_piece(ptype: u8, color: i32) -> (r: u8)
    requires
        color != WHITE ==> ptype <= 247,
    ensures
        r == piece_code(ptype, color),
        1 <= ptype <= 6 ==> r % 8 == ptype && (r >= 8 <==> color != WHITE),
{
    if color == WHITE {
        ptype
    } else {
        ptype + 8
    }
}

/// Code of square (x, y) in a board snapshot: 0 when empty, else the code
/// of its piece.
pub open spec fn snapshot_code(b: BoardModel, x: int, y: int) -> u8 {
    if b.sq(x, y) == 0 {
        0
    } else {
        piece_code(b.at(x, y).ptype, b.at(x, y).color)
    }
}

/// Pieces standing on the board have codes that fit in a byte.
pub open spec fn codes_fit(b: BoardModel) -> bool {
    forall|x: int, y: int| on_board(x, y) && #[trigger] b.sq(x, y) != 0 && b.at(x, y).color != WHITE
        ==> b.at(x, y).ptype <= 247
}

/// A 64-byte snapshot of the board: byte y*8 + x is the code of (x, y).
pub fn board_snapshot(board: &Board) -> (r: [u8; 64])
    requires
        board@.ids_ok(),
        codes_fit(board@),
    ensures
        forall|x: int, y: int| on_board(x, y) ==> #[trigger] r@[y * 8 + x] == snapshot_code(board@, x, y),
        forall|x: int, y: int| on_board(x, y) ==> {
            &&& board@.sq(x, y) == 0 ==> #[trigger] r@[y * 8 + x] == 0
            &&& board@.sq(x, y) != 0 && 1 <= board@.at(x, y).ptype <= 6 ==> {
                &&& r@[y * 8 + x] % 8 == board@.at(x, y).ptype
                &&& (r@[y * 8 + x] >= 8 <==> board@.at(x, y).color != WHITE)
            }
        },
{
    let ghost bm = board@;
    let mut buf = [0u8; 64];
    let mut y: usize = 0;
    while y < 8
        invariant
            board@ == bm,
            bm.ids_ok(),
            codes_fit(bm),
            y <= 8,
            forall|x2: int, y2: int| on_board(x2, y2) && y2 < y ==> #[trigger] buf@[y2 * 8 + x2] == snapshot_code(bm, x2, y2),
        decreases 8 - y,
    {
        let mut x: usize = 0;
        while x < 8
            invariant
                board@ == bm,
                bm.ids_ok(),
                codes_fit(bm),
                y < 8,
                x <= 8,
                forall|x2: int, y2: int| on_board(x2, y2) && (y2 < y || (y2 == y && x2 < x))
                    ==> #[trigger] buf@[y2 * 8 + x2] == snapshot_code(bm, x2, y2),
            decreases 8 - x,
        {
            let id = board.board[y][x];
            assert(on_board(x as int, y as int));
            assert(id == bm.sq(x as int, y as int));
            let code = if id == 0 {
                0
            } else {
                let p = board.piece(id);
                assert(bm.sq(x as int, y as int) != 0);
                encode_piece(p.ptype, p.color)
            };
            let ghost before = buf@;
            buf[y * 8 + x] = code;
            proof {
                assert forall|x2: int, y2: int| on_board(x2, y2) && (y2 < y || (y2 == y && x2 < x + 1))
                    implies #[trigger] buf@[y2 * 8 + x2] == snapshot_code(bm, x2, y2) by {
                    if !(x2 == x && y2 == y) {
                        assert(y2 * 8 + x2 != y * 8 + x);
                        assert(buf@[y2 * 8 + x2] == before[y2 * 8 + x2]);
                    }
                }
            }
            x += 1;
        }
        y += 1;
    }
    proof {
        assert forall|x: int, y: int| on_board(x, y) implies {
            &&& board@.sq(x, y) == 0 ==> #[trigger] buf@[y * 8 + x] == 0
            &&& board@.sq(x, y) != 0 && 1 <= board@.at(x, y).ptype <= 6 ==> {
                &&& buf@[y * 8 + x] % 8 == board@.at(x, y).ptype
                &&& (buf@[y * 8 + x] >= 8 <==> board@.at(x, y).color != WHITE)
            }
        } by {
            assert(buf@[y * 8 + x] == snapshot_code(board@, x, y));
        }
    }
    buf
}

/// Bytes 5i..5i+5 encode move i as (fx, fy, tx, ty, promotion).
pub open spec fn move_bytes_at(moves: Seq<Move>, bytes: Seq<u8>, i: int) -> bool {
    &&& bytes[5 * i] == (#[verifier::truncate] (moves[i].fx as u8))
    &&& bytes[5 * i + 1] == (#[verifier::truncate] (moves[i].fy as u8))
    &&& bytes[5 * i + 2] == (#[verifier::truncate] (moves[i].tx as u8))
    &&& bytes[5 * i + 3] == (#[verifier::truncate] (moves[i].ty as u8))
    &&& bytes[5 * i + 4] == moves[i].promotion
}

/// Bytes of a move list for the shell: at most 256 moves, five bytes each.
pub open spec fn move_bytes_ok(moves: Seq<Move>, bytes: Seq<u8>, n: int) -> bool {
    &&& n == (if moves.len() < 256 { moves.len() as int } else { 256int })
    &&& bytes.len() == 5 * n
    &&& forall|i: int| 0 <= i < n ==> #[trigger] move_bytes_at(moves, bytes, i)
}

/// Encode up to 256 moves as five bytes each. Returns the bytes and the
/// number of moves encoded.
pub fn encode_moves(moves: &Vec<Move>) -> (r: (Vec<u8>, usize))
    ensures
        move_bytes_ok(moves@, r.0@, r.1 as int),
{
    let n = if moves.len() < 256 { moves.len() } else { 256 };
    let mut bytes: Vec<u8> = Vec::new();
    let mut i: usize = 0;
    while i < n
        invariant
            n <= moves.len(),
            n as int == (if moves@.len() < 256 { moves@.len() as int } else { 256int }),
            i <= n,
            bytes@.len() == 5 * i,
            forall|k: int| 0 <= k < i ==> #[trigger] move_bytes_at(moves@, bytes@, k),
        decreases n - i,
    {
        let m = moves[i];
        let ghost before = bytes@;
        bytes.push(#[verifier::truncate] (m.fx as u8));
        bytes.push(#[verifier::truncate] (m.fy as u8));
        bytes.push(#[verifier::truncate] (m.tx as u8));
        bytes.push(#[verifier::truncate] (m.ty as u8));
        bytes.push(m.promotion);
        proof {
            assert forall|k: int| 0 <= k < i + 1 implies #[trigger] move_bytes_at(moves@, bytes@, k) by {
                if k < i {
                    assert(move_bytes_at(moves@, before, k));
                    assert(bytes@[5 * k] == before[5 * k]);
                    assert(bytes@[5 * k + 1] == before[5 * k + 1]);
                    assert(bytes@[5 * k + 2] == before[5 * k + 2]);
                    assert(bytes@[5 * k + 3] == before[5 * k + 3]);
                    assert(bytes@[5 * k + 4] == before[5 * k + 4]);
                }
            }
        }
        i += 1;
    }
    (bytes, n)
}

/// Legal moves of the side to move, encoded for the shell.
pub fn legal_move_bytes(board: &Board) -> (r: (Vec<u8>, usize))
    requires
        board@.can_generate(),
    ensures
        move_bytes_ok(board@.legal_seq(board@.side_to_move), r.0@, r.1 as int),
{
    let moves = board.generate_legal_moves(board.side_to_move);
    encode_moves(&moves)
}

/// A move matches the request (fx, fy, tx, ty, promo): same squares, and
/// either no promotion or the requested one.
pub open spec fn matches_request(m: Move, fx: i32, fy: i32, tx: i32, ty: i32, promo: u8) -> bool {
    m.fx == fx && m.fy == fy && m.tx == tx && m.ty == ty && (m.promotion == 0 || m.promotion == promo)
}

/// `m` is the first move of `moves` matching the request.
pub open spec fn first_match(moves: Seq<Move>, m: Move, fx: i32, fy: i32, tx: i32, ty: i32, promo: u8) -> bool {
    exists|k: int| 0 <= k < moves.len() && moves[k] == m
        && forall|j: int| 0 <= j < k ==> !matches_request(#[trigger] moves[j], fx, fy, tx, ty, promo)
}

/// Look up the first legal move of the side to move, in generation order,
/// matching (fx, fy, tx, ty[, promo]).
pub fn find_legal_move(board: &Board, fx: i32, fy: i32, tx: i32, ty: i32, promo: u8) -> (r: Option<Move>)
    requires
        board@.can_generate(),
    ensures
        match r {
            Some(m) => {
                &&& board@.legal_move(board@.side_to_move, m)
                &&& matches_request(m, fx, fy, tx, ty, promo)
                &&& first_match(board@.legal_seq(board@.side_to_move), m, fx, fy, tx, ty, promo)
            },
            None => forall|m: Move| board@.legal_move(board@.side_to_move, m)
                ==> !matches_request(m, fx, fy, tx, ty, promo),
        },
{
    let moves = board.generate_legal_moves(board.side_to_move);
    let mut i: usize = 0;
    while i < moves.len()
        invariant
            i <= moves@.len(),
            moves@ == board@.legal_seq(board@.side_to_move),
            forall|m: Move| #[trigger] moves@.contains(m) <==> board@.legal_move(board@.side_to_move, m),
            forall|k: int| 0 <= k < i ==> !matches_request(#[trigger] moves@[k], fx, fy, tx, ty, promo),
        decreases moves.len() - i,
    {
        let m = moves[i];
        assert(moves@.contains(m));
        if m.fx == fx && m.fy == fy && m.tx == tx && m.ty == ty {
            if m.promotion == 0 || m.promotion == promo {
                assert(moves@[i as int] == m);
                return Some(m);
            }
        }
        i += 1;
    }
    proof {
        assert forall|m: Move| board@.legal_move(board@.side_to_move, m)
            implies !matches_request(m, fx, fy, tx, ty, promo) by {
            assert(moves@.contains(m));
            let k = choose|k: int| 0 <= k < moves@.len() && moves@[k] == m;
            assert(!matches_request(moves@[k], fx, fy, tx, ty, promo));
        }
    }
    None
}

/// The promotion piece a request asks for: a negative request asks for none
/// (0); otherwise the low byte of the request.
pub open spec fn requested_promo(promo: i32) -> u8 {
    if promo < 0 { 0u8 } else { promo as u8 }
}

/// Play a requested move for the side to move if it is legal. A negative
/// `promo` asks for no promotion. Returns the move played, or None (and the
/// board unchanged) when no legal move matches.
pub fn make_move(board: &mut Board, fx: i32, fy: i32, tx: i32, ty: i32, promo: i32) -> (r: Option<Move>)
    requires
        old(board)@.can_generate(),
    ensures
        match r {
            Some(m) => old(board)@.legal_move(old(board)@.side_to_move, m)
                && matches_request(m, fx, fy, tx, ty, requested_promo(promo))
                && first_match(old(board)@.legal_seq(old(board)@.side_to_move), m, fx, fy, tx, ty, requested_promo(promo))
                && final(board)@ == old(board)@.applied(m),
            None => final(board)@ == old(board)@
                && forall|m: Move| #[trigger] old(board)@.legal_move(old(board)@.side_to_move, m)
                    ==> !matches_request(m, fx, fy, tx, ty, requested_promo(promo)),
        },
{
    let want_promo: u8 = if promo < 0 { 0 } else { #[verifier::truncate] (promo as u8) };
    match find_legal_move(board, fx, fy, tx, ty, want_promo) {
        Some(m) => {
            proof {
                board.lemma_pseudo_can_apply(board@.side_to_move, m);
            }
            board.apply_move(&m);
            Some(m)
        },
        None => None,
    }
}

/// Packed move for the shell: fx | fy << 3 | tx << 6 | ty << 9 | promotion << 12.
pub open spec fn packed(m: Move) -> i32 {
    m.fx | (m.fy << 3i32) | (m.tx << 6i32) | (m.ty << 9i32) | ((m.promotion as i32) << 12i32)
}

pub fn pack_move(m: &Move) -> (r: i32)
    ensures
        r == packed(*m),
        0 <= m.fx < 8 && 0 <= m.fy < 8 && 0 <= m.tx < 8 && 0 <= m.ty < 8 && m.promotion < 8 ==>
            r == m.fx + 8 * m.fy + 64 * m.tx + 512 * m.ty + 4096 * m.promotion,
{
    let r = m.fx | (m.fy << 3) | (m.tx << 6) | (m.ty << 9) | ((m.promotion as i32) << 12);
    proof {
        lemma_pack_fields(m.fx, m.fy, m.tx, m.ty, m.promotion as i32);
    }
    r
}

proof fn lemma_pack_fields(a: i32, b: i32, c: i32, d: i32, e: i32)
    ensures
        0 <= a < 8 && 0 <= b < 8 && 0 <= c < 8 && 0 <= d < 8 && 0 <= e < 8 ==>
            a | (b << 3i32) | (c << 6i32) | (d << 9i32) | (e << 12i32) == a + 8 * b + 64 * c + 512 * d + 4096 * e,
{
    assert(0 <= a < 8 && 0 <= b < 8 && 0 <= c < 8 && 0 <= d < 8 && 0 <= e < 8 ==>
        a | (b << 3i32) | (c << 6i32) | (d << 9i32) | (e << 12i32) == a + 8 * b + 64 * c + 512 * d + 4096 * e)
        by (bit_vector);
}

pub const STATUS_ONGOING: i32 = 0;
pub const STATUS_WHITE_WINS: i32 = 1;
pub const STATUS_BLACK_WINS: i32 = 2;
pub const STATUS_STALEMATE: i32 = 3;
pub const STATUS_DRAW: i32 = 4;

/// Game status: draw once the halfmove clock reaches 100; ongoing while the
/// side to move has a legal move; otherwise a checkmate (the other side
/// wins) or a stalemate.
pub open spec fn status_of(b: BoardModel) -> i32 {
    if b.halfmove >= 100 {
        STATUS_DRAW
    } else if exists|m: Move| b.legal_move(b.side_to_move, m) {
        STATUS_ONGOING
    } else if b.in_check(b.side_to_move) {
        if b.side_to_move == WHITE { STATUS_BLACK_WINS } else { STATUS_WHITE_WINS }
    } else {
        STATUS_STALEMATE
    }
}

/// Game status: 0 ongoing, 1 White wins, 2 Black wins, 3 stalemate, 4 draw.
pub fn game_status(board: &Board) -> (r: i32)
    requires
        board@.can_generate(),
    ensures
        r == status_of(board@),
        r == 4 <==> board@.halfmove >= 100,
        r == 0 <==> board@.halfmove < 100 && exists|m: Move| board@.legal_move(board@.side_to_move, m),
        r == 1 <==> board@.halfmove < 100 && (forall|m: Move| !board@.legal_move(board@.side_to_move, m))
            && board@.in_check(board@.side_to_move) && board@.side_to_move != WHITE,
        r == 2 <==> board@.halfmove < 100 && (forall|m: Move| !board@.legal_move(board@.side_to_move, m))
            && board@.in_check(board@.side_to_move) && board@.side_to_move == WHITE,
        r == 3 <==> board@.halfmove < 100 && (forall|m: Move| !board@.legal_move(board@.side_to_move, m))
            && !board@.in_check(board@.side_to_move),
{
    if board.halfmove >= 100 {
        return STATUS_DRAW;
    }
    let moves = board.generate_legal_moves(board.side_to_move);
    if moves.len() > 0 {
        assert(moves@.contains(moves@[0]));
        return STATUS_ONGOING;
    }
    assert forall|m: Move| !board@.legal_move(board@.side_to_move, m) by {
        if board@.legal_move(board@.side_to_move, m) {
            assert(moves@.contains(m));
        }
    }
    if board.is_in_check(board.side_to_move) {
        if board.side_to_move == WHITE {
            STATUS_BLACK_WINS
        } else {
            STATUS_WHITE_WINS
        }
    } else {
        STATUS_STALEMATE
    }
}

/// Whether the king of the colour named by `color` is in check: a
/// non-negative code names White, a negative one Black. Returns 1 or 0.
pub fn in_check_code(board: &Board, color: i32) -> (r: i32)
    requires
        board@.indices_ok(),
    ensures
        r == if board@.in_check(if color >= 0 { WHITE } else { BLACK }) { 1i32 } else { 0i32 },
{
    let c = if color >= 0 { WHITE } else { BLACK };
    if board.is_in_check(c) {
        1
    } else {
        0
    }
}

/// Index of an extra algorithm named by a shell-side integer, if in range.
pub fn extra_index(idx: i32) -> (r: Option<usize>)
    ensures
        match r {
            Some(i) => 0 <= idx < N_EXTRAS && i == idx,
            None => idx < 0 || idx >= N_EXTRAS,
        },
{
    if idx < 0 || idx as usize >= N_EXTRAS {
        None
    } else {
        Some(idx as usize)
    }
}

} // verus!
