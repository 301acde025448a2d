//! Board representation, legal move generation and rule enforcement.
//!
//! The board is the rules authority of the engine. Its mathematical model is
//! `BoardModel`: the square grid of piece ids, the piece list, and the game
//! state counters. Every operation is specified over that model.

use vstd::prelude::*;
use crate::constants::{
    on_board, in_bounds, knight_off, king_off, bishop_dir, rook_dir, queen_dir, slider_dir,
    slider_dir_count, slider_dir_seq, lemma_slider_dir_seq, knight_offset, king_offset,
    bishop_direction, rook_direction, slider_dirs, WHITE, BLACK, EMPTY, PAWN, KNIGHT, BISHOP,
    ROOK, QUEEN, KING, CASTLE_WK, CASTLE_WQ, CASTLE_BK, CASTLE_BQ,
};
use crate::seq_facts::{lemma_push_contains, lemma_add_contains, lemma_empty_contains};

verus! {

#[derive(Clone, Copy, PartialEq, Eq, Debug, Structural)]
pub struct Move {
    pub fx: i32,
    pub fy: i32,
    pub tx: i32,
    pub ty: i32,
    pub promotion: u8,
    pub is_en_passant: bool,
    pub is_castle: bool,
}

impl Move {
    /// A move without promotion, en-passant or castling flags.
    pub open spec fn plain(fx: i32, fy: i32, tx: i32, ty: i32) -> Move {
        Move { fx, fy, tx, ty, promotion: 0, is_en_passant: false, is_castle: false }
    }

    pub fn new(fx: i32, fy: i32, tx: i32, ty: i32) -> (m: Move)
        ensures
            m == Move::plain(fx, fy, tx, ty),
    {
        Move { fx, fy, tx, ty, promotion: 0, is_en_passant: false, is_castle: false }
    }

    pub fn promo(fx: i32, fy: i32, tx: i32, ty: i32, promotion: u8) -> (m: Move)
        ensures
            m == (Move { fx, fy, tx, ty, promotion, is_en_passant: false, is_castle: false }),
    {
        Move { fx, fy, tx, ty, promotion, is_en_passant: false, is_castle: false }
    }
}

#[derive(Clone, Copy, Debug)]
pub struct Piece {
    pub id: u16,
    pub ptype: u8,
    pub color: i32,
    pub x: i32,
    pub y: i32,
    pub last_move: Option<(i32, i32, i32, i32)>,
    pub alive: bool,
}

#[derive(Clone, Debug)]
pub struct Board {
    /// Piece id per square, indexed [y][x]; 0 = empty.
    pub board: [[u16; 8]; 8],
    /// Pieces indexed by (id - 1), in insertion order.
    pub pieces: Vec<Piece>,
    pub side_to_move: i32,
    pub castling: u8,
    pub en_passant: Option<(i32, i32)>,
    pub halfmove: u32,
    pub fullmove: u32,
}

/// The mathematical model of a board.
pub struct BoardModel {
    /// `squares[y][x]` is the id of the piece on (x, y), 0 when empty.
    pub squares: Seq<Seq<u16>>,
    pub pieces: Seq<Piece>,
    pub side_to_move: i32,
    pub castling: u8,
    pub en_passant: Option<(i32, i32)>,
    pub halfmove: u32,
    pub fullmove: u32,
}

impl View for Board {
    type V = BoardModel;

    open spec fn view(&self) -> BoardModel {
        BoardModel {
            squares: Seq::new(8, |y: int| self.board@[y]@),
            pieces: self.pieces@,
            side_to_move: self.side_to_move,
            castling: self.castling,
            en_passant: self.en_passant,
            halfmove: self.halfmove,
            fullmove: self.fullmove,
        }
    }
}

/// Forward direction of pawns of a colour.
pub open spec fn pawn_dir(c: i32) -> int {
    if c == WHITE { 1 } else { -1 }
}

/// Rank on which pawns of a colour may make a double step.
pub open spec fn pawn_start_rank(c: i32) -> int {
    if c == WHITE { 1 } else { 6 }
}

/// Rank on which pawns of a colour promote.
pub open spec fn pawn_promo_rank(c: i32) -> int {
    if c == WHITE { 7 } else { 0 }
}

/// Coordinate `n` unit steps from `v` along direction component `d`.
pub open spec fn shift(v: int, d: int, n: int) -> int {
    if d > 0 { v + n } else if d < 0 { v - n } else { v }
}

/// A direction whose components are -1, 0 or 1.
pub open spec fn unit_dir(d: (i32, i32)) -> bool {
    -1 <= d.0 <= 1 && -1 <= d.1 <= 1
}

impl BoardModel {
    /// Id on a square.
    pub open spec fn sq(self, x: int, y: int) -> u16 {
        self.squares[y][x]
    }

    /// The piece whose id stands on a square (meaningful when the square is occupied).
    pub open spec fn at(self, x: int, y: int) -> Piece {
        self.pieces[self.sq(x, y) - 1]
    }

    /// The shape facts that keep every access of the rules in range: an 8x8
    /// grid, every id on it names a piece, and every living piece stands on
    /// the board.
    pub open spec fn indices_ok(self) -> bool {
        &&& self.squares.len() == 8
        &&& forall|y: int| 0 <= y < 8 ==> #[trigger] self.squares[y].len() == 8
        &&& forall|x: int, y: int| on_board(x, y) ==> #[trigger] self.sq(x, y) as int <= self.pieces.len()
        &&& forall|i: int| 0 <= i < self.pieces.len() && #[trigger] self.pieces[i].alive
                ==> on_board(self.pieces[i].x as int, self.pieces[i].y as int)
    }

    /// Every id on the board names a piece.
    pub open spec fn ids_ok(self) -> bool {
        &&& self.squares.len() == 8
        &&& forall|y: int| 0 <= y < 8 ==> #[trigger] self.squares[y].len() == 8
        &&& forall|x: int, y: int| on_board(x, y) ==> #[trigger] self.sq(x, y) as int <= self.pieces.len()
    }

    /// Squares and living pieces agree: an id on a square names a living
    /// piece standing there, and a living piece's square holds its id.
    pub open spec fn consistent(self) -> bool {
        &&& forall|x: int, y: int| on_board(x, y) && #[trigger] self.sq(x, y) != 0 ==> {
                let p = self.at(x, y);
                p.alive && p.x == x && p.y == y
            }
        &&& forall|i: int| 0 <= i < self.pieces.len() && #[trigger] self.pieces[i].alive
                ==> self.sq(self.pieces[i].x as int, self.pieces[i].y as int) == i + 1
    }

    /// Every piece has a colour and a piece type.
    pub open spec fn valid_pieces(self) -> bool {
        forall|i: int| 0 <= i < self.pieces.len() ==> {
            let p = #[trigger] self.pieces[i];
            (p.color == WHITE || p.color == BLACK) && PAWN <= p.ptype <= KING
        }
    }

    /// An en-passant square, if any, is an empty square of the board.
    pub open spec fn ep_empty(self) -> bool {
        match self.en_passant {
            Some((ex, ey)) => on_board(ex as int, ey as int) && self.sq(ex as int, ey as int) == 0,
            None => true,
        }
    }

    /// Each castling right held goes with its king on the king's home square
    /// and its rook in the corner.
    pub open spec fn castle_sane(self) -> bool {
        &&& (self.castling & CASTLE_WK) != 0 ==> self.holds(4, 0, WHITE, KING) && self.holds(7, 0, WHITE, ROOK)
        &&& (self.castling & CASTLE_WQ) != 0 ==> self.holds(4, 0, WHITE, KING) && self.holds(0, 0, WHITE, ROOK)
        &&& (self.castling & CASTLE_BK) != 0 ==> self.holds(4, 7, BLACK, KING) && self.holds(7, 7, BLACK, ROOK)
        &&& (self.castling & CASTLE_BQ) != 0 ==> self.holds(4, 7, BLACK, KING) && self.holds(0, 7, BLACK, ROOK)
    }

    /// No castling right held has a piece of the other colour on its king's
    /// home square (the square a castling move starts from).
    pub open spec fn castle_homes_own(self) -> bool {
        &&& ((self.castling & CASTLE_WK) != 0 || (self.castling & CASTLE_WQ) != 0)
            ==> self.sq(4, 0) == 0 || self.at(4, 0).color == WHITE
        &&& ((self.castling & CASTLE_BK) != 0 || (self.castling & CASTLE_BQ) != 0)
            ==> self.sq(4, 7) == 0 || self.at(4, 7).color == BLACK
    }

    /// Full consistency of a position.
    pub open spec fn wf(self) -> bool {
        &&& self.indices_ok()
        &&& self.consistent()
        &&& self.valid_pieces()
        &&& (self.side_to_move == WHITE || self.side_to_move == BLACK)
        &&& self.ep_empty()
    }

    /// A living piece of colour `c` and type `t` stands on (x, y).
    pub open spec fn holds(self, x: int, y: int, c: i32, t: u8) -> bool {
        &&& on_board(x, y)
        &&& self.sq(x, y) != 0
        &&& self.at(x, y).alive
        &&& self.at(x, y).color == c
        &&& self.at(x, y).ptype == t
    }

    /// The first `n - 1` squares from (x, y) along `d` are on the board and empty.
    pub open spec fn ray_clear(self, x: int, y: int, d: (i32, i32), n: int) -> bool {
        forall|j: int| 1 <= j < n ==> {
            &&& on_board(#[trigger] shift(x, d.0 as int, j), shift(y, d.1 as int, j))
            &&& self.sq(shift(x, d.0 as int, j), shift(y, d.1 as int, j)) == 0
        }
    }

    /// The first piece seen from (x, y) along `d` is a living piece of colour
    /// `c` whose type is `t1` or `t2`.
    pub open spec fn ray_attack(self, x: int, y: int, d: (i32, i32), c: i32, t1: u8, t2: u8) -> bool {
        exists|n: int| n >= 1 && #[trigger] self.ray_clear(x, y, d, n) && {
            let px = shift(x, d.0 as int, n);
            let py = shift(y, d.1 as int, n);
            self.holds(px, py, c, t1) || self.holds(px, py, c, t2)
        }
    }

    /// A pawn of `c` attacks (x, y). A colour other than White is treated as Black.
    pub open spec fn pawn_attack(self, x: int, y: int, c: i32) -> bool {
        if c == WHITE {
            self.holds(x - 1, y - 1, WHITE, PAWN) || self.holds(x + 1, y - 1, WHITE, PAWN)
        } else {
            self.holds(x - 1, y + 1, BLACK, PAWN) || self.holds(x + 1, y + 1, BLACK, PAWN)
        }
    }

    pub open spec fn knight_attack(self, x: int, y: int, c: i32) -> bool {
        exists|k: int| 0 <= k < 8 && #[trigger] self.holds(
            x + knight_off(k).0, y + knight_off(k).1, c, KNIGHT)
    }

    pub open spec fn king_attack(self, x: int, y: int, c: i32) -> bool {
        exists|k: int| 0 <= k < 8 && #[trigger] self.holds(
            x + king_off(k).0, y + king_off(k).1, c, KING)
    }

    pub open spec fn diagonal_attack(self, x: int, y: int, c: i32) -> bool {
        exists|k: int| 0 <= k < 4 && #[trigger] self.ray_attack(x, y, bishop_dir(k), c, BISHOP, QUEEN)
    }

    pub open spec fn orthogonal_attack(self, x: int, y: int, c: i32) -> bool {
        exists|k: int| 0 <= k < 4 && #[trigger] self.ray_attack(x, y, rook_dir(k), c, ROOK, QUEEN)
    }

    /// Square (x, y) is attacked by a living piece of colour `c`.
    pub open spec fn attacked(self, x: int, y: int, c: i32) -> bool {
        ||| self.pawn_attack(x, y, c)
        ||| self.knight_attack(x, y, c)
        ||| self.diagonal_attack(x, y, c)
        ||| self.orthogonal_attack(x, y, c)
        ||| self.king_attack(x, y, c)
    }

    /// Position of the first living king of colour `c` at or after piece index `i`.
    pub open spec fn king_from(self, c: i32, i: int) -> Option<(i32, i32)>
        decreases self.pieces.len() - i,
    {
        if i < 0 || i >= self.pieces.len() {
            None
        } else {
            let p = self.pieces[i];
            if p.alive && p.ptype == KING && p.color == c {
                Some((p.x, p.y))
            } else {
                self.king_from(c, i + 1)
            }
        }
    }

    /// Position of the first living king of colour `c` in piece order.
    pub open spec fn king_pos(self, c: i32) -> Option<(i32, i32)> {
        self.king_from(c, 0)
    }

    /// The king of colour `c` stands on a square attacked by the other colour.
    pub open spec fn in_check(self, c: i32) -> bool {
        match self.king_pos(c) {
            Some((kx, ky)) => self.attacked(kx as int, ky as int, (-c) as i32),
            None => false,
        }
    }
}

/// `m` is a flag-free move from (x, y) to (tx, ty).
pub open spec fn plain_at(m: Move, x: int, y: int, tx: int, ty: int) -> bool {
    &&& m.fx == x && m.fy == y && m.tx == tx && m.ty == ty
    &&& m.promotion == 0
    &&& !m.is_en_passant
    &&& !m.is_castle
}

/// Promotion field of a pawn move landing on rank `ty`: one of the four
/// promotion pieces on the last rank, none elsewhere.
pub open spec fn promo_ok(m: Move, ty: int, c: i32) -> bool {
    if ty == pawn_promo_rank(c) {
        m.promotion == QUEEN || m.promotion == ROOK || m.promotion == BISHOP || m.promotion == KNIGHT
    } else {
        m.promotion == 0
    }
}

/// Offset `k` of a jumping piece: knight jumps for knights, king steps otherwise.
pub open spec fn jump_off(kind: u8, k: int) -> (i32, i32) {
    if kind == KNIGHT { knight_off(k) } else { king_off(k) }
}

pub open spec fn castle_wk() -> Move {
    Move { fx: 4, fy: 0, tx: 6, ty: 0, promotion: 0, is_en_passant: false, is_castle: true }
}

pub open spec fn castle_wq() -> Move {
    Move { fx: 4, fy: 0, tx: 2, ty: 0, promotion: 0, is_en_passant: false, is_castle: true }
}

pub open spec fn castle_bk() -> Move {
    Move { fx: 4, fy: 7, tx: 6, ty: 7, promotion: 0, is_en_passant: false, is_castle: true }
}

pub open spec fn castle_bq() -> Move {
    Move { fx: 4, fy: 7, tx: 2, ty: 7, promotion: 0, is_en_passant: false, is_castle: true }
}

impl BoardModel {
    /// Single pawn push (with promotion choice on the last rank).
    pub open spec fn pawn_push(self, x: int, y: int, c: i32, m: Move) -> bool {
        let one = y + pawn_dir(c);
        &&& m.fx == x && m.fy == y && m.tx == x && m.ty == one
        &&& on_board(x, one)
        &&& self.sq(x, one) == 0
        &&& !m.is_en_passant && !m.is_castle
        &&& promo_ok(m, one, c)
    }

    /// Double pawn push from the start rank over an empty square.
    pub open spec fn pawn_double(self, x: int, y: int, c: i32, m: Move) -> bool {
        let one = y + pawn_dir(c);
        let two = y + 2 * pawn_dir(c);
        &&& plain_at(m, x, y, x, two)
        &&& on_board(x, one) && self.sq(x, one) == 0
        &&& y == pawn_start_rank(c)
        &&& on_board(x, two) && self.sq(x, two) == 0
    }

    /// Diagonal pawn capture towards file x + dx.
    pub open spec fn pawn_capture(self, x: int, y: int, c: i32, dx: int, m: Move) -> bool {
        let cx = x + dx;
        let cy = y + pawn_dir(c);
        &&& m.fx == x && m.fy == y && m.tx == cx && m.ty == cy
        &&& on_board(cx, cy)
        &&& self.sq(cx, cy) != 0
        &&& self.at(cx, cy).color != c
        &&& !m.is_en_passant && !m.is_castle
        &&& promo_ok(m, cy, c)
    }

    /// En-passant capture towards file x + dx.
    pub open spec fn pawn_ep(self, x: int, y: int, c: i32, dx: int, m: Move) -> bool {
        let cx = x + dx;
        let cy = y + pawn_dir(c);
        &&& m.fx == x && m.fy == y && m.tx == cx && m.ty == cy
        &&& m.promotion == 0 && m.is_en_passant && !m.is_castle
        &&& on_board(cx, cy)
        &&& self.en_passant == Some((cx as i32, cy as i32))
    }

    pub open spec fn pawn_move(self, x: int, y: int, c: i32, m: Move) -> bool {
        ||| self.pawn_push(x, y, c, m)
        ||| self.pawn_double(x, y, c, m)
        ||| self.pawn_capture(x, y, c, -1, m)
        ||| self.pawn_ep(x, y, c, -1, m)
        ||| self.pawn_capture(x, y, c, 1, m)
        ||| self.pawn_ep(x, y, c, 1, m)
    }

    /// Step to (x + dx, y + dy) onto an empty square or an enemy.
    pub open spec fn step_move(self, x: int, y: int, c: i32, dx: int, dy: int, m: Move) -> bool {
        &&& plain_at(m, x, y, x + dx, y + dy)
        &&& on_board(x + dx, y + dy)
        &&& (self.sq(x + dx, y + dy) == 0 || self.at(x + dx, y + dy).color != c)
    }

    /// Jump moves (knight jumps or king steps) among the first `k` offsets.
    pub open spec fn jump_move_upto(self, x: int, y: int, c: i32, kind: u8, k: int, m: Move) -> bool {
        exists|j: int| 0 <= j < k && #[trigger] self.step_move(
            x, y, c, jump_off(kind, j).0 as int, jump_off(kind, j).1 as int, m)
    }

    pub open spec fn jump_move(self, x: int, y: int, c: i32, kind: u8, m: Move) -> bool {
        self.jump_move_upto(x, y, c, kind, 8, m)
    }

    /// Slide `n` squares along `d` over empty squares onto an empty square or an enemy.
    pub open spec fn ray_target(self, x: int, y: int, c: i32, d: (i32, i32), n: int, m: Move) -> bool {
        let tx = shift(x, d.0 as int, n);
        let ty = shift(y, d.1 as int, n);
        &&& n >= 1
        &&& self.ray_clear(x, y, d, n)
        &&& plain_at(m, x, y, tx, ty)
        &&& on_board(tx, ty)
        &&& (self.sq(tx, ty) == 0 || self.at(tx, ty).color != c)
    }

    pub open spec fn ray_move_upto(self, x: int, y: int, c: i32, d: (i32, i32), n: int, m: Move) -> bool {
        exists|n2: int| n2 < n && #[trigger] self.ray_target(x, y, c, d, n2, m)
    }

    pub open spec fn ray_move(self, x: int, y: int, c: i32, d: (i32, i32), m: Move) -> bool {
        exists|n: int| #[trigger] self.ray_target(x, y, c, d, n, m)
    }

    pub open spec fn slider_move_upto(self, x: int, y: int, c: i32, t: u8, k: int, m: Move) -> bool {
        exists|j: int| 0 <= j < k && #[trigger] self.ray_move(x, y, c, slider_dir(t, j), m)
    }

    pub open spec fn slider_move(self, x: int, y: int, c: i32, t: u8, m: Move) -> bool {
        self.slider_move_upto(x, y, c, t, slider_dir_count(t), m)
    }

    /// Castling: the right is held, the squares between king and rook are
    /// empty, the king's start, transit and target squares are not attacked,
    /// and the rook's corner is occupied.
    pub open spec fn castle_move(self, c: i32, m: Move) -> bool {
        ||| {
            &&& c == WHITE && (self.castling & CASTLE_WK) != 0
            &&& self.sq(5, 0) == 0 && self.sq(6, 0) == 0
            &&& !self.attacked(4, 0, BLACK) && !self.attacked(5, 0, BLACK) && !self.attacked(6, 0, BLACK)
            &&& self.sq(7, 0) != 0
            &&& m == castle_wk()
        }
        ||| {
            &&& c == WHITE && (self.castling & CASTLE_WQ) != 0
            &&& self.sq(1, 0) == 0 && self.sq(2, 0) == 0 && self.sq(3, 0) == 0
            &&& !self.attacked(4, 0, BLACK) && !self.attacked(3, 0, BLACK) && !self.attacked(2, 0, BLACK)
            &&& self.sq(0, 0) != 0
            &&& m == castle_wq()
        }
        ||| {
            &&& c == BLACK && (self.castling & CASTLE_BK) != 0
            &&& self.sq(5, 7) == 0 && self.sq(6, 7) == 0
            &&& !self.attacked(4, 7, WHITE) && !self.attacked(5, 7, WHITE) && !self.attacked(6, 7, WHITE)
            &&& self.sq(7, 7) != 0
            &&& m == castle_bk()
        }
        ||| {
            &&& c == BLACK && (self.castling & CASTLE_BQ) != 0
            &&& self.sq(1, 7) == 0 && self.sq(2, 7) == 0 && self.sq(3, 7) == 0
            &&& !self.attacked(4, 7, WHITE) && !self.attacked(3, 7, WHITE) && !self.attacked(2, 7, WHITE)
            &&& self.sq(0, 7) != 0
            &&& m == castle_bq()
        }
    }

    /// The moves of a piece of colour `c`, ignoring whether they expose the king.
    pub open spec fn piece_move(self, p: Piece, c: i32, m: Move) -> bool {
        let (x, y) = (p.x as int, p.y as int);
        if p.ptype == PAWN {
            self.pawn_move(x, y, c, m)
        } else if p.ptype == KNIGHT {
            self.jump_move(x, y, c, KNIGHT, m)
        } else if p.ptype == KING {
            self.jump_move(x, y, c, KING, m) || self.castle_move(c, m)
        } else if p.ptype == BISHOP || p.ptype == ROOK || p.ptype == QUEEN {
            self.slider_move(x, y, c, p.ptype, m)
        } else {
            false
        }
    }

    /// Piece `i` is a living piece of colour `c` and `m` is one of its moves.
    pub open spec fn gen(self, i: int, c: i32, m: Move) -> bool {
        &&& 0 <= i < self.pieces.len()
        &&& self.pieces[i].alive
        &&& self.pieces[i].color == c
        &&& self.piece_move(self.pieces[i], c, m)
    }

    pub open spec fn gen_upto(self, c: i32, i: int, m: Move) -> bool {
        exists|j: int| 0 <= j < i && #[trigger] self.gen(j, c, m)
    }

    /// Pseudo-legal move of colour `c`: a move of one of its living pieces.
    pub open spec fn pseudo_move(self, c: i32, m: Move) -> bool {
        self.gen_upto(c, self.pieces.len() as int, m)
    }
}

/// The four promotion moves from (x, y) to (tx, ty): queen, rook, bishop, knight.
pub open spec fn promo_seq(x: i32, y: i32, tx: i32, ty: i32) -> Seq<Move> {
    seq![
        Move { fx: x, fy: y, tx, ty, promotion: QUEEN, is_en_passant: false, is_castle: false },
        Move { fx: x, fy: y, tx, ty, promotion: ROOK, is_en_passant: false, is_castle: false },
        Move { fx: x, fy: y, tx, ty, promotion: BISHOP, is_en_passant: false, is_castle: false },
        Move { fx: x, fy: y, tx, ty, promotion: KNIGHT, is_en_passant: false, is_castle: false },
    ]
}

/// A pawn arriving on (x, y) to (tx, ty): the four promotions on the last
/// rank, the plain move elsewhere.
pub open spec fn pawn_arrivals(x: i32, y: i32, tx: i32, ty: i32, c: i32) -> Seq<Move> {
    if ty == pawn_promo_rank(c) {
        promo_seq(x, y, tx, ty)
    } else {
        seq![Move::plain(x, y, tx, ty)]
    }
}

impl BoardModel {
    /// The pushes of a pawn in generation order: the single step (or its
    /// promotions), then the double step from the start rank.
    pub open spec fn pawn_push_seq(self, x: i32, y: i32, c: i32) -> Seq<Move> {
        let one = y + pawn_dir(c);
        let two = y + 2 * pawn_dir(c);
        if 0 <= one < 8 && self.sq(x as int, one) == 0 {
            let first = pawn_arrivals(x, y, x, one as i32, c);
            if y == pawn_start_rank(c) && self.sq(x as int, two) == 0 {
                first.push(Move::plain(x, y, x, two as i32))
            } else {
                first
            }
        } else {
            Seq::empty()
        }
    }

    /// The diagonal moves of a pawn towards file x + dx in generation order:
    /// the capture (or its promotions), then the en-passant capture.
    pub open spec fn pawn_diag_seq(self, x: i32, y: i32, c: i32, dx: i32) -> Seq<Move> {
        let cx = x + dx;
        let cy = y + pawn_dir(c);
        if on_board(cx, cy) {
            let caps = if self.sq(cx, cy) != 0 && self.at(cx, cy).color != c {
                pawn_arrivals(x, y, cx as i32, cy as i32, c)
            } else {
                Seq::empty()
            };
            if self.en_passant == Some((cx as i32, cy as i32)) {
                caps.push(Move { is_en_passant: true, ..Move::plain(x, y, cx as i32, cy as i32) })
            } else {
                caps
            }
        } else {
            Seq::empty()
        }
    }

    /// All moves of a pawn in generation order.
    pub open spec fn pawn_seq(self, x: i32, y: i32, c: i32) -> Seq<Move> {
        self.pawn_push_seq(x, y, c) + self.pawn_diag_seq(x, y, c, -1i32) + self.pawn_diag_seq(x, y, c, 1i32)
    }

    /// Jump moves among the first `k` offsets, in offset order.
    pub open spec fn jump_seq_upto(self, x: i32, y: i32, c: i32, kind: u8, k: int) -> Seq<Move>
        decreases k,
    {
        if k <= 0 {
            Seq::empty()
        } else {
            let prev = self.jump_seq_upto(x, y, c, kind, k - 1);
            let tx = x + jump_off(kind, k - 1).0;
            let ty = y + jump_off(kind, k - 1).1;
            if on_board(tx, ty) && (self.sq(tx, ty) == 0 || self.at(tx, ty).color != c) {
                prev.push(Move::plain(x, y, tx as i32, ty as i32))
            } else {
                prev
            }
        }
    }

    /// Moves along direction `d` from the `n`-th square on, nearest first.
    pub open spec fn ray_seq_from(self, x: i32, y: i32, c: i32, d: (i32, i32), n: int) -> Seq<Move>
        decreases 9 - n,
    {
        if n >= 9 {
            Seq::empty()
        } else {
            let tx = shift(x as int, d.0 as int, n);
            let ty = shift(y as int, d.1 as int, n);
            if !on_board(tx, ty) {
                Seq::empty()
            } else if self.sq(tx, ty) != 0 {
                if self.at(tx, ty).color != c {
                    seq![Move::plain(x, y, tx as i32, ty as i32)]
                } else {
                    Seq::empty()
                }
            } else {
                seq![Move::plain(x, y, tx as i32, ty as i32)] + self.ray_seq_from(x, y, c, d, n + 1)
            }
        }
    }

    /// Sliding moves along the first `k` directions of type `t`, direction by direction.
    pub open spec fn slide_seq_upto(self, x: i32, y: i32, c: i32, t: u8, k: int) -> Seq<Move>
        decreases k,
    {
        if k <= 0 {
            Seq::empty()
        } else {
            self.slide_seq_upto(x, y, c, t, k - 1) + self.ray_seq_from(x, y, c, slider_dir(t, k - 1), 1)
        }
    }

    /// The castling moves of colour `c` in generation order: white king
    /// side, white queen side, black king side, black queen side.
    pub open spec fn castle_seq(self, c: i32) -> Seq<Move> {
        let wk: Seq<Move> = if self.castle_move(c, castle_wk()) && c == WHITE { seq![castle_wk()] } else { Seq::empty() };
        let wq: Seq<Move> = if self.castle_move(c, castle_wq()) && c == WHITE { seq![castle_wq()] } else { Seq::empty() };
        let bk: Seq<Move> = if self.castle_move(c, castle_bk()) && c == BLACK { seq![castle_bk()] } else { Seq::empty() };
        let bq: Seq<Move> = if self.castle_move(c, castle_bq()) && c == BLACK { seq![castle_bq()] } else { Seq::empty() };
        wk + wq + bk + bq
    }

    /// The moves of a piece of colour `c` in generation order.
    pub open spec fn piece_seq(self, p: Piece, c: i32) -> Seq<Move> {
        if p.ptype == PAWN {
            self.pawn_seq(p.x, p.y, c)
        } else if p.ptype == KNIGHT {
            self.jump_seq_upto(p.x, p.y, c, KNIGHT, 8)
        } else if p.ptype == KING {
            self.jump_seq_upto(p.x, p.y, c, KING, 8) + self.castle_seq(c)
        } else if p.ptype == BISHOP || p.ptype == ROOK || p.ptype == QUEEN {
            self.slide_seq_upto(p.x, p.y, c, p.ptype, slider_dir_count(p.ptype))
        } else {
            Seq::empty()
        }
    }

    /// The pseudo-legal moves of colour `c` of the first `i` pieces, piece by piece.
    pub open spec fn pseudo_seq(self, c: i32, i: int) -> Seq<Move>
        decreases i,
    {
        if i <= 0 {
            Seq::empty()
        } else {
            let p = self.pieces[i - 1];
            let own: Seq<Move> = if p.alive && p.color == c { self.piece_seq(p, c) } else { Seq::empty() };
            self.pseudo_seq(c, i - 1) + own
        }
    }

    /// The legal moves of colour `c` in generation order: the pseudo-legal
    /// moves after which its own king is not attacked.
    pub open spec fn legal_seq(self, c: i32) -> Seq<Move> {
        self.pseudo_seq(c, self.pieces.len() as int).filter(|m: Move| !self.applied(m).in_check(c))
    }
}

impl BoardModel {
    /// The board with square (x, y) set to id `v`.
    pub open spec fn set_sq(self, x: int, y: int, v: u16) -> BoardModel {
        BoardModel { squares: self.squares.update(y, self.squares[y].update(x, v)), ..self }
    }

    /// The board with piece `i` replaced.
    pub open spec fn set_piece(self, i: int, p: Piece) -> BoardModel {
        BoardModel { pieces: self.pieces.update(i, p), ..self }
    }

    /// The board with a piece appended to the piece list.
    pub open spec fn push_piece(self, p: Piece) -> BoardModel {
        BoardModel { pieces: self.pieces.push(p), ..self }
    }

    /// The board with piece `i` marked captured.
    pub open spec fn kill(self, i: int) -> BoardModel {
        self.set_piece(i, Piece { alive: false, ..self.pieces[i] })
    }

    /// Colour of the piece a move starts from.
    pub open spec fn mover_color(self, m: Move) -> i32 {
        self.at(m.fx as int, m.fy as int).color
    }

    /// The square whose occupant a move captures, if any: the square behind
    /// the target for en passant, the target square otherwise.
    pub open spec fn capture_square(self, m: Move) -> Option<(int, int)> {
        if m.is_en_passant {
            let cap_y = m.ty - pawn_dir(self.mover_color(m));
            if self.sq(m.tx as int, cap_y) != 0 { Some((m.tx as int, cap_y)) } else { None }
        } else if self.sq(m.tx as int, m.ty as int) != 0 {
            Some((m.tx as int, m.ty as int))
        } else {
            None
        }
    }

    /// First step of a move: the captured piece is marked dead (and, for en
    /// passant, taken off its square).
    pub open spec fn after_capture(self, m: Move) -> BoardModel {
        match self.capture_square(m) {
            Some((cx, cy)) => {
                let b = self.kill(self.sq(cx, cy) - 1);
                if m.is_en_passant { b.set_sq(cx, cy, 0) } else { b }
            },
            None => self,
        }
    }

    /// Second step: the moving piece `id` leaves its square, lands on the
    /// target, records the move and takes the promotion type if any.
    pub open spec fn after_relocate(self, m: Move, id: u16) -> BoardModel {
        let p = self.pieces[id - 1];
        let moved = Piece {
            x: m.tx,
            y: m.ty,
            last_move: Some((m.fx, m.fy, m.tx, m.ty)),
            ptype: if m.promotion != 0 { m.promotion } else { p.ptype },
            ..p
        };
        self.set_sq(m.fx as int, m.fy as int, 0).set_sq(m.tx as int, m.ty as int, id).set_piece(id - 1, moved)
    }

    /// Third step: for a castling move, the rook in the corner on the side
    /// of the king's target jumps next to the king.
    pub open spec fn after_castle_rook(self, m: Move, color: i32) -> BoardModel {
        if m.is_castle {
            let ry: int = if color == WHITE { 0 } else { 7 };
            let rf: int = if m.tx == 6 { 7 } else { 0 };
            let rt: int = if m.tx == 6 { 5 } else { 3 };
            let rid = self.sq(rf, ry);
            if rid != 0 {
                let r = self.pieces[rid - 1];
                let moved = Piece {
                    x: rt as i32,
                    y: ry as i32,
                    last_move: Some((rf as i32, ry as i32, rt as i32, ry as i32)),
                    ..r
                };
                self.set_sq(rf, ry, 0).set_sq(rt, ry, rid).set_piece(rid - 1, moved)
            } else {
                self
            }
        } else {
            self
        }
    }
}

/// Castling rights after a move: a king move drops both rights of its
/// colour, a rook leaving its corner drops that corner's right, and a rook
/// captured on its corner drops that corner's right.
pub open spec fn castling_after(
    castling: u8,
    m: Move,
    color: i32,
    moved_type: u8,
    cap_type: u8,
    cap_color: i32,
    cap_pos: Option<(int, int)>,
) -> u8 {
    let c1: u8 = if moved_type == KING {
        if color == WHITE { castling & !(CASTLE_WK | CASTLE_WQ) } else { castling & !(CASTLE_BK | CASTLE_BQ) }
    } else {
        castling
    };
    let c2: u8 = if moved_type == ROOK {
        if color == WHITE {
            if m.fx == 0 && m.fy == 0 { c1 & !CASTLE_WQ } else if m.fx == 7 && m.fy == 0 { c1 & !CASTLE_WK } else { c1 }
        } else {
            if m.fx == 0 && m.fy == 7 { c1 & !CASTLE_BQ } else if m.fx == 7 && m.fy == 7 { c1 & !CASTLE_BK } else { c1 }
        }
    } else {
        c1
    };
    if cap_type == ROOK {
        match cap_pos {
            Some((px, py)) => {
                if cap_color == WHITE {
                    if px == 0 && py == 0 { c2 & !CASTLE_WQ } else if px == 7 && py == 0 { c2 & !CASTLE_WK } else { c2 }
                } else {
                    if px == 0 && py == 7 { c2 & !CASTLE_BQ } else if px == 7 && py == 7 { c2 & !CASTLE_BK } else { c2 }
                }
            },
            None => c2,
        }
    } else {
        c2
    }
}

impl BoardModel {
    /// Type of the piece a move captures (0 when none).
    pub open spec fn captured_type(self, m: Move) -> u8 {
        match self.capture_square(m) {
            Some((cx, cy)) => self.at(cx, cy).ptype,
            None => 0,
        }
    }

    /// Colour of the piece a move captures (0 when none).
    pub open spec fn captured_color(self, m: Move) -> i32 {
        match self.capture_square(m) {
            Some((cx, cy)) => self.at(cx, cy).color,
            None => 0,
        }
    }

    /// The position after playing `m`. A move from an empty square changes
    /// nothing. Otherwise the capture, the relocation and the castling rook
    /// are applied in turn; castling rights are updated; a pawn double step
    /// sets the en-passant square to the square it passed; the halfmove clock
    /// resets on pawn moves and captures and counts up otherwise; the
    /// fullmove number counts up after Black's move; the side to move flips.
    pub open spec fn applied(self, m: Move) -> BoardModel {
        let id = self.sq(m.fx as int, m.fy as int);
        if id == 0 {
            self
        } else {
            let mover = self.pieces[id - 1];
            let color = mover.color;
            let t0 = mover.ptype;
            let cap_type = self.captured_type(m);
            let b3 = self.after_capture(m).after_relocate(m, id).after_castle_rook(m, color);
            let dy = m.ty - m.fy;
            BoardModel {
                castling: castling_after(
                    b3.castling, m, color, t0, cap_type, self.captured_color(m), self.capture_square(m)),
                en_passant: if t0 == PAWN && (dy == 2 || dy == -2) {
                    Some((m.fx, ((m.fy + m.ty) / 2) as i32))
                } else {
                    None
                },
                halfmove: if t0 == PAWN || cap_type != 0 { 0 } else { (self.halfmove + 1) as u32 },
                fullmove: if self.side_to_move == BLACK { (self.fullmove + 1) as u32 } else { self.fullmove },
                side_to_move: (-self.side_to_move) as i32,
                ..b3
            }
        }
    }

    /// What `apply_move` needs to stay in range.
    pub open spec fn can_apply(self, m: Move) -> bool {
        &&& on_board(m.fx as int, m.fy as int)
        &&& self.sq(m.fx as int, m.fy as int) != 0 ==> {
            &&& self.indices_ok()
            &&& on_board(m.tx as int, m.ty as int)
            &&& (m.is_en_passant ==> on_board(m.tx as int, m.ty - pawn_dir(self.mover_color(m))))
            &&& self.halfmove < u32::MAX
            &&& self.fullmove < u32::MAX
            &&& self.side_to_move != i32::MIN
        }
    }

    /// An en-passant square, if any, lies strictly between the first and last rank.
    pub open spec fn ep_sane(self) -> bool {
        self.en_passant matches Some((ex, ey)) ==> 1 <= ey <= 6
    }

    /// What move generation needs: range facts, an en-passant capture that
    /// stays on the board (squares and pieces agree, or the en-passant square
    /// is off the first and last rank), and counters that can still advance.
    pub open spec fn can_generate(self) -> bool {
        &&& self.indices_ok()
        &&& (self.consistent() || self.ep_sane())
        &&& self.halfmove < u32::MAX
        &&& self.fullmove < u32::MAX
        &&& self.side_to_move != i32::MIN
    }

    /// Legal move of colour `c`: pseudo-legal and not leaving its own king attacked.
    pub open spec fn legal_move(self, c: i32, m: Move) -> bool {
        self.pseudo_move(c, m) && !self.applied(m).in_check(c)
    }
}

/// Append a move, keeping track of membership.
fn push_move(v: &mut Vec<Move>, m: Move)
    ensures
        final(v)@ == old(v)@.push(m),
        forall|x: Move| #[trigger] final(v)@.contains(x) <==> (old(v)@.contains(x) || x == m),
{
    proof {
        lemma_push_contains(v@, m);
    }
    v.push(m);
}

/// Append all moves of `w`, keeping track of membership.
fn append_moves(v: &mut Vec<Move>, w: Vec<Move>)
    ensures
        final(v)@ == old(v)@ + w@,
        forall|x: Move| #[trigger] final(v)@.contains(x) <==> (old(v)@.contains(x) || w@.contains(x)),
{
    let mut w = w;
    proof {
        lemma_add_contains(v@, w@);
    }
    v.append(&mut w);
}

impl Board {
    /// Diagonal capture and en-passant moves of a pawn towards file x + dx.
    fn pawn_diagonal(&self, x: i32, y: i32, color: i32, dx: i32, moves: &mut Vec<Move>)
        requires
            self@.indices_ok(),
            on_board(x as int, y as int),
            dx == -1 || dx == 1,
        ensures
            final(moves)@ == old(moves)@ + self@.pawn_diag_seq(x, y, color, dx),
            forall|m: Move| #[trigger] final(moves)@.contains(m) <==> (old(moves)@.contains(m)
                || self@.pawn_capture(x as int, y as int, color, dx as int, m)
                || self@.pawn_ep(x as int, y as int, color, dx as int, m)),
    {
        let ghost start = moves@;
        let diry: i32 = if color == WHITE { 1 } else { -1 };
        let promo_rank: i32 = if color == WHITE { 7 } else { 0 };
        let cx = x + dx;
        let cy = y + diry;
        if in_bounds(cx, cy) {
            let target = self.id_at(cx, cy);
            if target != 0 && self.pieces[(target - 1) as usize].color != color {
                if cy == promo_rank {
                    push_move(moves, Move::promo(x, y, cx, cy, QUEEN));
                    push_move(moves, Move::promo(x, y, cx, cy, ROOK));
                    push_move(moves, Move::promo(x, y, cx, cy, BISHOP));
                    push_move(moves, Move::promo(x, y, cx, cy, KNIGHT));
                } else {
                    push_move(moves, Move::new(x, y, cx, cy));
                }
                assert(moves@ =~= start + pawn_arrivals(x, y, cx, cy, color));
            }
            let ghost caps = moves@;
            if self.en_passant == Some((cx, cy)) {
                let mut m = Move::new(x, y, cx, cy);
                m.is_en_passant = true;
                push_move(moves, m);
            }
            assert(moves@ =~= start + self@.pawn_diag_seq(x, y, color, dx));
        } else {
            assert(moves@ =~= start + self@.pawn_diag_seq(x, y, color, dx));
        }
    }

    /// All moves of a pawn of `color` on (x, y).
    fn pawn_moves(&self, x: i32, y: i32, color: i32) -> (r: Vec<Move>)
        requires
            self@.indices_ok(),
            on_board(x as int, y as int),
        ensures
            r@ == self@.pawn_seq(x, y, color),
            forall|m: Move| #[trigger] r@.contains(m) <==> self@.pawn_move(x as int, y as int, color, m),
    {
        let mut moves: Vec<Move> = Vec::new();
        proof {
            lemma_empty_contains::<Move>();
        }
        let diry: i32 = if color == WHITE { 1 } else { -1 };
        let start_rank: i32 = if color == WHITE { 1 } else { 6 };
        let promo_rank: i32 = if color == WHITE { 7 } else { 0 };
        let one_y = y + diry;
        if one_y >= 0 && one_y < 8 && self.id_at(x, one_y) == EMPTY as u16 {
            if one_y == promo_rank {
                push_move(&mut moves, Move::promo(x, y, x, one_y, QUEEN));
                push_move(&mut moves, Move::promo(x, y, x, one_y, ROOK));
                push_move(&mut moves, Move::promo(x, y, x, one_y, BISHOP));
                push_move(&mut moves, Move::promo(x, y, x, one_y, KNIGHT));
            } else {
                push_move(&mut moves, Move::new(x, y, x, one_y));
            }
            let two_y = y + 2 * diry;
            if y == start_rank && self.id_at(x, two_y) == EMPTY as u16 {
                push_move(&mut moves, Move::new(x, y, x, two_y));
            }
        }
        assert(forall|m: Move| #[trigger] moves@.contains(m) <==> (
            self@.pawn_push(x as int, y as int, color, m) || self@.pawn_double(x as int, y as int, color, m)));
        assert(moves@ =~= self@.pawn_push_seq(x, y, color));
        self.pawn_diagonal(x, y, color, -1, &mut moves);
        self.pawn_diagonal(x, y, color, 1, &mut moves);
        moves
    }

    /// Knight jumps (kind KNIGHT) or king steps (any other kind) from (x, y).
    pub(crate) fn jump_moves(&self, x: i32, y: i32, color: i32, kind: u8) -> (r: Vec<Move>)
        requires
            self@.indices_ok(),
            on_board(x as int, y as int),
        ensures
            r@ == self@.jump_seq_upto(x, y, color, kind, 8),
            forall|m: Move| #[trigger] r@.contains(m) <==> self@.jump_move(x as int, y as int, color, kind, m),
    {
        let mut moves: Vec<Move> = Vec::new();
        proof {
            lemma_empty_contains::<Move>();
        }
        let mut k: usize = 0;
        while k < 8
            invariant
                self@.indices_ok(),
                on_board(x as int, y as int),
                k <= 8,
                moves@ == self@.jump_seq_upto(x, y, color, kind, k as int),
                forall|m: Move| #[trigger] moves@.contains(m)
                    <==> self@.jump_move_upto(x as int, y as int, color, kind, k as int, m),
            decreases 8 - k,
        {
            let (dx, dy) = if kind == KNIGHT { knight_offset(k) } else { king_offset(k) };
            let (nx, ny) = (x + dx, y + dy);
            let ghost old_moves = moves@;
            if in_bounds(nx, ny) {
                let target = self.id_at(nx, ny);
                if target == 0 || self.pieces[(target - 1) as usize].color != color {
                    push_move(&mut moves, Move::new(x, y, nx, ny));
                }
            }
            proof {
                let bm = self@;
                assert forall|m: Move| #[trigger] moves@.contains(m)
                    <==> bm.jump_move_upto(x as int, y as int, color, kind, k + 1, m) by {
                    if bm.jump_move_upto(x as int, y as int, color, kind, k + 1, m) {
                        let j = choose|j: int| 0 <= j < k + 1 && #[trigger] bm.step_move(
                            x as int, y as int, color, jump_off(kind, j).0 as int, jump_off(kind, j).1 as int, m);
                        if j < k {
                            assert(bm.jump_move_upto(x as int, y as int, color, kind, k as int, m));
                        }
                    }
                    if moves@.contains(m) && !old_moves.contains(m) {
                        assert(bm.step_move(x as int, y as int, color,
                            jump_off(kind, k as int).0 as int, jump_off(kind, k as int).1 as int, m));
                    }
                    if old_moves.contains(m) {
                        let j = choose|j: int| 0 <= j < k && #[trigger] bm.step_move(
                            x as int, y as int, color, jump_off(kind, j).0 as int, jump_off(kind, j).1 as int, m);
                        assert(bm.step_move(x as int, y as int, color,
                            jump_off(kind, j).0 as int, jump_off(kind, j).1 as int, m));
                    }
                }
            }
            k += 1;
        }
        moves
    }

    /// Sliding moves from (x, y) along direction `d`.
    fn ray_moves(&self, x: i32, y: i32, color: i32, d: (i32, i32), moves: &mut Vec<Move>)
        requires
            self@.indices_ok(),
            on_board(x as int, y as int),
            unit_dir(d),
            d.0 != 0 || d.1 != 0,
        ensures
            final(moves)@ == old(moves)@ + self@.ray_seq_from(x, y, color, d, 1),
            forall|m: Move| #[trigger] final(moves)@.contains(m) <==> (old(moves)@.contains(m)
                || self@.ray_move(x as int, y as int, color, d, m)),
    {
        let ghost start = moves@;
        let ghost bm = self@;
        let (dx, dy) = d;
        let mut nx = x + dx;
        let mut ny = y + dy;
        let ghost mut n: int = 1;
        proof {
            assert forall|m: Move| #[trigger] moves@.contains(m) <==> (start.contains(m)
                || bm.ray_move_upto(x as int, y as int, color, d, n, m)) by {
                if bm.ray_move_upto(x as int, y as int, color, d, n, m) {
                    let n2 = choose|n2: int| n2 < n && #[trigger] bm.ray_target(x as int, y as int, color, d, n2, m);
                }
            }
        }
        while in_bounds(nx, ny)
            invariant
                self@ == bm,
                start == old(moves)@,
                bm.indices_ok(),
                on_board(x as int, y as int),
                unit_dir(d),
                d == (dx, dy),
                d.0 != 0 || d.1 != 0,
                n >= 1,
                nx == shift(x as int, dx as int, n),
                ny == shift(y as int, dy as int, n),
                bm.ray_clear(x as int, y as int, d, n),
                moves@ + bm.ray_seq_from(x, y, color, d, n) == start + bm.ray_seq_from(x, y, color, d, 1),
                forall|m: Move| #[trigger] moves@.contains(m) <==> (start.contains(m)
                    || bm.ray_move_upto(x as int, y as int, color, d, n, m)),
            decreases ray_room(nx as int, ny as int, d),
        {
            let target = self.id_at(nx, ny);
            let ghost before = moves@;
            if target == 0 {
                push_move(moves, Move::new(x, y, nx, ny));
                proof {
                    assert(n < 9);
                    assert(bm.ray_seq_from(x, y, color, d, n)
                        == seq![Move::plain(x, y, nx, ny)] + bm.ray_seq_from(x, y, color, d, n + 1));
                    assert(moves@ + bm.ray_seq_from(x, y, color, d, n + 1)
                        =~= before + bm.ray_seq_from(x, y, color, d, n));
                    assert forall|j: int| 1 <= j < n + 1 implies {
                        &&& on_board(#[trigger] shift(x as int, d.0 as int, j), shift(y as int, d.1 as int, j))
                        &&& bm.sq(shift(x as int, d.0 as int, j), shift(y as int, d.1 as int, j)) == 0
                    } by {
                        if j < n {
                            assert(on_board(shift(x as int, d.0 as int, j), shift(y as int, d.1 as int, j)));
                        }
                    }
                    assert(bm.ray_target(x as int, y as int, color, d, n, Move::plain(x, y, nx, ny)));
                    assert forall|m: Move| #[trigger] moves@.contains(m) <==> (start.contains(m)
                        || bm.ray_move_upto(x as int, y as int, color, d, n + 1, m)) by {
                        if bm.ray_move_upto(x as int, y as int, color, d, n + 1, m) {
                            let n2 = choose|n2: int| n2 < n + 1 && #[trigger] bm.ray_target(x as int, y as int, color, d, n2, m);
                            if n2 < n {
                                assert(bm.ray_move_upto(x as int, y as int, color, d, n, m));
                            }
                        }
                        if before.contains(m) && !start.contains(m) {
                            let n2 = choose|n2: int| n2 < n && #[trigger] bm.ray_target(x as int, y as int, color, d, n2, m);
                            assert(bm.ray_target(x as int, y as int, color, d, n2, m));
                        }
                    }
                    n = n + 1;
                }
                nx = nx + dx;
                ny = ny + dy;
            } else {
                if self.pieces[(target - 1) as usize].color != color {
                    push_move(moves, Move::new(x, y, nx, ny));
                    assert(bm.ray_target(x as int, y as int, color, d, n, Move::plain(x, y, nx, ny)));
                }
                proof {
                    assert(n < 9);
                    assert(moves@ =~= before + bm.ray_seq_from(x, y, color, d, n));
                    assert forall|m: Move| #[trigger] moves@.contains(m) <==> (start.contains(m)
                        || bm.ray_move(x as int, y as int, color, d, m)) by {
                        if bm.ray_move(x as int, y as int, color, d, m) {
                            let n2 = choose|n2: int| #[trigger] bm.ray_target(x as int, y as int, color, d, n2, m);
                            if n2 < n {
                                assert(bm.ray_move_upto(x as int, y as int, color, d, n, m));
                            } else if n2 > n {
                                assert(on_board(shift(x as int, d.0 as int, n), shift(y as int, d.1 as int, n)));
                            } else {
                                assert(m == Move::plain(x, y, nx, ny));
                            }
                        }
                        if before.contains(m) && !start.contains(m) {
                            let n2 = choose|n2: int| n2 < n && #[trigger] bm.ray_target(x as int, y as int, color, d, n2, m);
                            assert(bm.ray_target(x as int, y as int, color, d, n2, m));
                        }
                        if moves@.contains(m) && !before.contains(m) {
                            assert(bm.ray_target(x as int, y as int, color, d, n, m));
                        }
                    }
                }
                return;
            }
        }
        proof {
            assert(bm.ray_seq_from(x, y, color, d, n) =~= Seq::<Move>::empty());
            assert(moves@ =~= start + bm.ray_seq_from(x, y, color, d, 1));
            assert forall|m: Move| #[trigger] moves@.contains(m) <==> (start.contains(m)
                || bm.ray_move(x as int, y as int, color, d, m)) by {
                if bm.ray_move(x as int, y as int, color, d, m) {
                    let n2 = choose|n2: int| #[trigger] bm.ray_target(x as int, y as int, color, d, n2, m);
                    if n2 < n {
                        assert(bm.ray_move_upto(x as int, y as int, color, d, n, m));
                    } else if n2 > n {
                        assert(on_board(shift(x as int, d.0 as int, n), shift(y as int, d.1 as int, n)));
                    }
                }
                if moves@.contains(m) && !start.contains(m) {
                    let n2 = choose|n2: int| n2 < n && #[trigger] bm.ray_target(x as int, y as int, color, d, n2, m);
                    assert(bm.ray_target(x as int, y as int, color, d, n2, m));
                }
            }
        }
    }
}

impl Board {
    /// Castling moves available to `color`.
    fn add_castle_moves(&self, color: i32, moves: &mut Vec<Move>)
        requires
            self@.indices_ok(),
        ensures
            final(moves)@ == old(moves)@ + self@.castle_seq(color),
            forall|m: Move| #[trigger] final(moves)@.contains(m) <==> (old(moves)@.contains(m)
                || self@.castle_move(color, m)),
    {
        let ghost start = moves@;
        let ghost bm = self@;
        let e = EMPTY as u16;
        if color == WHITE && (self.castling & CASTLE_WK) != 0 {
            if self.board[0][5] == e && self.board[0][6] == e
                && !self.is_square_attacked(4, 0, BLACK)
                && !self.is_square_attacked(5, 0, BLACK)
                && !self.is_square_attacked(6, 0, BLACK)
                && self.board[0][7] != e
            {
                push_move(moves, Move { fx: 4, fy: 0, tx: 6, ty: 0, promotion: 0, is_en_passant: false, is_castle: true });
            }
        }
        let ghost wk: Seq<Move> = if bm.castle_move(color, castle_wk()) && color == WHITE { seq![castle_wk()] } else { Seq::empty() };
        assert(moves@ =~= start + wk);
        if color == WHITE && (self.castling & CASTLE_WQ) != 0 {
            if self.board[0][1] == e && self.board[0][2] == e && self.board[0][3] == e
                && !self.is_square_attacked(4, 0, BLACK)
                && !self.is_square_attacked(3, 0, BLACK)
                && !self.is_square_attacked(2, 0, BLACK)
                && self.board[0][0] != e
            {
                push_move(moves, Move { fx: 4, fy: 0, tx: 2, ty: 0, promotion: 0, is_en_passant: false, is_castle: true });
            }
        }
        let ghost wq: Seq<Move> = if bm.castle_move(color, castle_wq()) && color == WHITE { seq![castle_wq()] } else { Seq::empty() };
        assert(moves@ =~= start + wk + wq);
        if color == BLACK && (self.castling & CASTLE_BK) != 0 {
            if self.board[7][5] == e && self.board[7][6] == e
                && !self.is_square_attacked(4, 7, WHITE)
                && !self.is_square_attacked(5, 7, WHITE)
                && !self.is_square_attacked(6, 7, WHITE)
                && self.board[7][7] != e
            {
                push_move(moves, Move { fx: 4, fy: 7, tx: 6, ty: 7, promotion: 0, is_en_passant: false, is_castle: true });
            }
        }
        let ghost bk: Seq<Move> = if bm.castle_move(color, castle_bk()) && color == BLACK { seq![castle_bk()] } else { Seq::empty() };
        assert(moves@ =~= start + wk + wq + bk);
        if color == BLACK && (self.castling & CASTLE_BQ) != 0 {
            if self.board[7][1] == e && self.board[7][2] == e && self.board[7][3] == e
                && !self.is_square_attacked(4, 7, WHITE)
                && !self.is_square_attacked(3, 7, WHITE)
                && !self.is_square_attacked(2, 7, WHITE)
                && self.board[7][0] != e
            {
                push_move(moves, Move { fx: 4, fy: 7, tx: 2, ty: 7, promotion: 0, is_en_passant: false, is_castle: true });
            }
        }
        let ghost bq: Seq<Move> = if bm.castle_move(color, castle_bq()) && color == BLACK { seq![castle_bq()] } else { Seq::empty() };
        assert(moves@ =~= start + wk + wq + bk + bq);
    }

    /// Sliding moves of a piece of type `t` on (x, y) along all its directions.
    pub(crate) fn slide_moves(&self, x: i32, y: i32, color: i32, t: u8, moves: &mut Vec<Move>)
        requires
            self@.indices_ok(),
            on_board(x as int, y as int),
        ensures
            final(moves)@ == old(moves)@ + self@.slide_seq_upto(x, y, color, t, slider_dir_count(t)),
            forall|m: Move| #[trigger] final(moves)@.contains(m) <==> (old(moves)@.contains(m)
                || self@.slider_move(x as int, y as int, color, t, m)),
    {
        let ghost start = moves@;
        let ghost bm = self@;
        let dirs = slider_dirs(t);
        proof {
            lemma_slider_dir_seq(t);
        }
        let mut k: usize = 0;
        while k < dirs.len()
            invariant
                self@ == bm,
                start == old(moves)@,
                bm.indices_ok(),
                on_board(x as int, y as int),
                dirs@ == slider_dir_seq(t),
                dirs@.len() == slider_dir_count(t),
                forall|j: int| 0 <= j < slider_dir_count(t) ==> #[trigger] slider_dir_seq(t)[j] == slider_dir(t, j),
                k <= dirs.len(),
                moves@ == start + bm.slide_seq_upto(x, y, color, t, k as int),
                forall|m: Move| #[trigger] moves@.contains(m) <==> (start.contains(m)
                    || bm.slider_move_upto(x as int, y as int, color, t, k as int, m)),
            decreases dirs.len() - k,
        {
            let d = dirs[k];
            assert(d == slider_dir(t, k as int));
            assert(unit_dir(d) && (d.0 != 0 || d.1 != 0)) by {
                assert(0 <= k < 8);
            }
            let ghost before = moves@;
            self.ray_moves(x, y, color, d, moves);
            proof {
                assert(moves@ =~= start + bm.slide_seq_upto(x, y, color, t, k + 1));
                assert forall|m: Move| #[trigger] moves@.contains(m) <==> (start.contains(m)
                    || bm.slider_move_upto(x as int, y as int, color, t, k + 1, m)) by {
                    if bm.slider_move_upto(x as int, y as int, color, t, k + 1, m) {
                        let j = choose|j: int| 0 <= j < k + 1 && #[trigger] bm.ray_move(x as int, y as int, color, slider_dir(t, j), m);
                        if j < k {
                            assert(bm.slider_move_upto(x as int, y as int, color, t, k as int, m));
                        }
                    }
                    if before.contains(m) && !start.contains(m) {
                        let j = choose|j: int| 0 <= j < k && #[trigger] bm.ray_move(x as int, y as int, color, slider_dir(t, j), m);
                        assert(bm.ray_move(x as int, y as int, color, slider_dir(t, j), m));
                    }
                }
            }
            k += 1;
        }
    }

    /// Moves of one piece of colour `color`, ignoring whether they expose the king.
    fn piece_moves(&self, p: &Piece, color: i32) -> (r: Vec<Move>)
        requires
            self@.indices_ok(),
            on_board(p.x as int, p.y as int),
        ensures
            r@ == self@.piece_seq(*p, color),
            forall|m: Move| #[trigger] r@.contains(m) <==> self@.piece_move(*p, color, m),
    {
        let (x, y) = (p.x, p.y);
        if p.ptype == PAWN {
            self.pawn_moves(x, y, color)
        } else if p.ptype == KNIGHT {
            self.jump_moves(x, y, color, KNIGHT)
        } else if p.ptype == KING {
            let mut moves = self.jump_moves(x, y, color, KING);
            self.add_castle_moves(color, &mut moves);
            moves
        } else if p.ptype == BISHOP || p.ptype == ROOK || p.ptype == QUEEN {
            let mut moves: Vec<Move> = Vec::new();
            proof {
                lemma_empty_contains::<Move>();
            }
            self.slide_moves(x, y, color, p.ptype, &mut moves);
            moves
        } else {
            proof {
                lemma_empty_contains::<Move>();
            }
            Vec::new()
        }
    }

    /// All moves of the living pieces of `color`, ignoring whether they expose
    /// the king.
    pub fn generate_pseudo_moves(&self, color: i32) -> (r: Vec<Move>)
        requires
            self@.indices_ok(),
        ensures
            r@ == self@.pseudo_seq(color, self@.pieces.len() as int),
            forall|m: Move| #[trigger] r@.contains(m) <==> self@.pseudo_move(color, m),
    {
        let ghost bm = self@;
        let mut moves: Vec<Move> = Vec::new();
        proof {
            lemma_empty_contains::<Move>();
        }
        let mut i: usize = 0;
        while i < self.pieces.len()
            invariant
                self@ == bm,
                bm.indices_ok(),
                i <= self.pieces.len(),
                moves@ == bm.pseudo_seq(color, i as int),
                forall|m: Move| #[trigger] moves@.contains(m) <==> bm.gen_upto(color, i as int, m),
            decreases self.pieces.len() - i,
        {
            let p = &self.pieces[i];
            let ghost before = moves@;
            if p.alive && p.color == color {
                let pm = self.piece_moves(p, color);
                append_moves(&mut moves, pm);
            }
            proof {
                assert(moves@ =~= bm.pseudo_seq(color, i + 1));
                assert forall|m: Move| #[trigger] moves@.contains(m) <==> bm.gen_upto(color, i + 1, m) by {
                    if bm.gen_upto(color, i + 1, m) {
                        let j = choose|j: int| 0 <= j < i + 1 && #[trigger] bm.gen(j, color, m);
                        if j < i {
                            assert(bm.gen_upto(color, i as int, m));
                        }
                    }
                    if before.contains(m) {
                        let j = choose|j: int| 0 <= j < i && #[trigger] bm.gen(j, color, m);
                        assert(bm.gen(j, color, m));
                    }
                    if moves@.contains(m) && !before.contains(m) {
                        assert(bm.gen(i as int, color, m));
                    }
                }
            }
            i += 1;
        }
        moves
    }
}

/// Reading a square after writing one.
pub proof fn lemma_set_sq(b: BoardModel, x: int, y: int, v: u16)
    requires
        b.squares.len() == 8,
        forall|y2: int| 0 <= y2 < 8 ==> #[trigger] b.squares[y2].len() == 8,
        on_board(x, y),
    ensures
        forall|x2: int, y2: int| on_board(x2, y2) ==> #[trigger] b.set_sq(x, y, v).sq(x2, y2)
            == if x2 == x && y2 == y { v } else { b.sq(x2, y2) },
        b.set_sq(x, y, v).squares.len() == 8,
        forall|y2: int| 0 <= y2 < 8 ==> #[trigger] b.set_sq(x, y, v).squares[y2].len() == 8,
{
}

/// Range facts depend only on squares and pieces.
proof fn lemma_indices_ok_same(a: BoardModel, b: BoardModel)
    requires
        a.indices_ok(),
        a.squares == b.squares,
        a.pieces == b.pieces,
    ensures
        b.indices_ok(),
{
    assert forall|x: int, y: int| on_board(x, y) implies #[trigger] b.sq(x, y) as int <= b.pieces.len() by {
        assert(a.sq(x, y) == b.sq(x, y));
    }
    assert forall|i: int| 0 <= i < b.pieces.len() && #[trigger] b.pieces[i].alive
        implies on_board(b.pieces[i].x as int, b.pieces[i].y as int) by {
        assert(a.pieces[i] == b.pieces[i]);
    }
}

impl Board {
    fn set_square(&mut self, x: i32, y: i32, v: u16)
        requires
            on_board(x as int, y as int),
        ensures
            final(self)@ == old(self)@.set_sq(x as int, y as int, v),
            old(self)@.indices_ok() && v as int <= old(self)@.pieces.len() ==> final(self)@.indices_ok(),
    {
        self.board[y as usize][x as usize] = v;
        assert(self@.squares =~~= old(self)@.set_sq(x as int, y as int, v).squares);
        proof {
            let b = self@;
            if old(self)@.indices_ok() && v as int <= old(self)@.pieces.len() {
                assert forall|x2: int, y2: int| on_board(x2, y2) implies #[trigger] b.sq(x2, y2) as int <= b.pieces.len() by {
                    if x2 != x || y2 != y {
                        assert(b.sq(x2, y2) == old(self)@.sq(x2, y2));
                    }
                }
            }
        }
    }

    fn set_piece_at(&mut self, i: usize, p: Piece)
        requires
            i < old(self).pieces.len(),
        ensures
            final(self)@ == old(self)@.set_piece(i as int, p),
            old(self)@.indices_ok() && (p.alive ==> on_board(p.x as int, p.y as int)) ==> final(self)@.indices_ok(),
            final(self)@.pieces.len() == old(self)@.pieces.len(),
    {
        self.pieces.set(i, p);
        proof {
            let b = self@;
            if old(self)@.indices_ok() && (p.alive ==> on_board(p.x as int, p.y as int)) {
                assert forall|i2: int| 0 <= i2 < b.pieces.len() && #[trigger] b.pieces[i2].alive
                    implies on_board(b.pieces[i2].x as int, b.pieces[i2].y as int) by {
                    if i2 != i {
                        assert(b.pieces[i2] == old(self)@.pieces[i2]);
                    }
                }
                assert forall|x: int, y: int| on_board(x, y) implies #[trigger] b.sq(x, y) as int <= b.pieces.len() by {
                    assert(old(self)@.sq(x, y) == b.sq(x, y));
                }
            }
        }
        assert(self@.squares =~~= old(self)@.squares);
        assert(self@.pieces =~= old(self)@.set_piece(i as int, p).pieces);
    }

    /// Capture step of a move from the square of piece `id` (of colour `color`).
    fn capture_step(&mut self, m: &Move, color: i32) -> (r: (u8, i32, Option<(i32, i32)>))
        requires
            old(self)@.can_apply(*m),
            old(self)@.sq(m.fx as int, m.fy as int) != 0,
            color == old(self)@.mover_color(*m),
        ensures
            final(self)@ == old(self)@.after_capture(*m),
            final(self)@.indices_ok(),
            final(self)@.pieces.len() == old(self)@.pieces.len(),
            r.0 == old(self)@.captured_type(*m),
            r.1 == old(self)@.captured_color(*m),
            match (r.2, old(self)@.capture_square(*m)) {
                (Some((a, b)), Some((c, d))) => a as int == c && b as int == d,
                (None, None) => true,
                _ => false,
            },
    {
        if m.is_en_passant {
            let cap_y = m.ty - if color == WHITE { 1 } else { -1 };
            let cap_id = self.id_at(m.tx, cap_y);
            if cap_id != 0 {
                let cp = self.pieces[(cap_id - 1) as usize];
                self.set_piece_at((cap_id - 1) as usize, Piece { alive: false, ..cp });
                self.set_square(m.tx, cap_y, 0);
                (cp.ptype, cp.color, Some((m.tx, cap_y)))
            } else {
                (0, 0, None)
            }
        } else {
            let target = self.id_at(m.tx, m.ty);
            if target != 0 {
                let cp = self.pieces[(target - 1) as usize];
                self.set_piece_at((target - 1) as usize, Piece { alive: false, ..cp });
                (cp.ptype, cp.color, Some((m.tx, m.ty)))
            } else {
                (0, 0, None)
            }
        }
    }

    /// Relocation step: piece `id` leaves (fx, fy) and lands on (tx, ty).
    fn relocate_step(&mut self, m: &Move, id: u16)
        requires
            old(self)@.indices_ok(),
            on_board(m.fx as int, m.fy as int),
            on_board(m.tx as int, m.ty as int),
            1 <= id <= old(self)@.pieces.len(),
        ensures
            final(self)@ == old(self)@.after_relocate(*m, id),
            final(self)@.indices_ok(),
            final(self)@.pieces.len() == old(self)@.pieces.len(),
    {
        self.set_square(m.fx, m.fy, 0);
        self.set_square(m.tx, m.ty, id);
        let p = self.pieces[(id - 1) as usize];
        let new_type = if m.promotion != 0 { m.promotion } else { p.ptype };
        let moved = Piece {
            x: m.tx,
            y: m.ty,
            last_move: Some((m.fx, m.fy, m.tx, m.ty)),
            ptype: new_type,
            ..p
        };
        self.set_piece_at((id - 1) as usize, moved);
    }

    /// Rook step of a castling move made by colour `color`.
    fn castle_rook_step(&mut self, m: &Move, color: i32)
        requires
            old(self)@.indices_ok(),
        ensures
            final(self)@ == old(self)@.after_castle_rook(*m, color),
            final(self)@.indices_ok(),
            final(self)@.pieces.len() == old(self)@.pieces.len(),
    {
        if m.is_castle {
            let rook_y: i32 = if color == WHITE { 0 } else { 7 };
            let rook_from: i32 = if m.tx == 6 { 7 } else { 0 };
            let rook_to: i32 = if m.tx == 6 { 5 } else { 3 };
            let rook_id = self.id_at(rook_from, rook_y);
            if rook_id != 0 {
                self.set_square(rook_from, rook_y, 0);
                self.set_square(rook_to, rook_y, rook_id);
                let rook = self.pieces[(rook_id - 1) as usize];
                let moved = Piece {
                    x: rook_to,
                    y: rook_y,
                    last_move: Some((rook_from, rook_y, rook_to, rook_y)),
                    ..rook
                };
                self.set_piece_at((rook_id - 1) as usize, moved);
            }
        }
    }

    /// Apply a move: capture, relocation, castling rook, castling rights,
    /// en-passant square, move clocks and side to move.
    pub fn apply_move(&mut self, m: &Move)
        requires
            old(self)@.can_apply(*m),
        ensures
            final(self)@ == old(self)@.applied(*m),
            old(self)@.indices_ok() ==> final(self)@.indices_ok(),
    {
        let ghost b0 = self@;
        let id = self.id_at(m.fx, m.fy);
        if id == 0 {
            return;
        }
        let dy = m.ty - m.fy;
        let color = self.pieces[(id - 1) as usize].color;
        let piece_type_before = self.pieces[(id - 1) as usize].ptype;
        let (captured_type, captured_color, captured_pos) = self.capture_step(m, color);
        self.relocate_step(m, id);
        self.castle_rook_step(m, color);
        let ghost b3 = self@;
        let castling = castling_rights_after(
            self.castling, m, color, piece_type_before, captured_type, captured_color, captured_pos);
        self.castling = castling;
        self.en_passant = None;
        if piece_type_before == PAWN && (dy == 2 || dy == -2) {
            let mid_y = (m.fy + m.ty) / 2;
            self.en_passant = Some((m.fx, mid_y));
        }
        if piece_type_before == PAWN || captured_type != 0 {
            self.halfmove = 0;
        } else {
            self.halfmove = self.halfmove + 1;
        }
        if self.side_to_move == BLACK {
            self.fullmove = self.fullmove + 1;
        }
        self.side_to_move = -self.side_to_move;
        assert(self@.squares == b3.squares);
        assert(self@.pieces == b3.pieces);
        proof {
            lemma_indices_ok_same(b3, self@);
        }
    }
}

/// Castling rights after a move (see `castling_after`).
fn castling_rights_after(
    castling: u8,
    m: &Move,
    color: i32,
    moved_type: u8,
    cap_type: u8,
    cap_color: i32,
    cap_pos: Option<(i32, i32)>,
) -> (r: u8)
    ensures
        forall|pos: Option<(int, int)>| #![auto] match (cap_pos, pos) {
            (Some((a, b)), Some((c, d))) => a as int == c && b as int == d,
            (None, None) => true,
            _ => false,
        } ==> r == castling_after(castling, *m, color, moved_type, cap_type, cap_color, pos),
{
    let mut c = castling;
    if moved_type == KING {
        if color == WHITE {
            c = c & !(CASTLE_WK | CASTLE_WQ);
        } else {
            c = c & !(CASTLE_BK | CASTLE_BQ);
        }
    }
    if moved_type == ROOK {
        if color == WHITE {
            if m.fx == 0 && m.fy == 0 {
                c = c & !CASTLE_WQ;
            } else if m.fx == 7 && m.fy == 0 {
                c = c & !CASTLE_WK;
            }
        } else {
            if m.fx == 0 && m.fy == 7 {
                c = c & !CASTLE_BQ;
            } else if m.fx == 7 && m.fy == 7 {
                c = c & !CASTLE_BK;
            }
        }
    }
    if cap_type == ROOK {
        if let Some((px, py)) = cap_pos {
            if cap_color == WHITE {
                if px == 0 && py == 0 {
                    c = c & !CASTLE_WQ;
                } else if px == 7 && py == 0 {
                    c = c & !CASTLE_WK;
                }
            } else {
                if px == 0 && py == 7 {
                    c = c & !CASTLE_BQ;
                } else if px == 7 && py == 7 {
                    c = c & !CASTLE_BK;
                }
            }
        }
    }
    c
}

impl Board {
    /// Whether squares and living pieces agree (see `BoardModel::consistent`).
    pub fn squares_agree(&self) -> (r: bool)
        requires
            self@.indices_ok(),
        ensures
            r == self@.consistent(),
    {
        let ghost bm = self@;
        let mut y: usize = 0;
        while y < 8
            invariant
                self@ == bm,
                bm.indices_ok(),
                y <= 8,
                forall|x2: int, y2: int| on_board(x2, y2) && y2 < y && #[trigger] bm.sq(x2, y2) != 0 ==> {
                    let p = bm.at(x2, y2);
                    p.alive && p.x == x2 && p.y == y2
                },
            decreases 8 - y,
        {
            let mut x: usize = 0;
            while x < 8
                invariant
                    self@ == bm,
                    bm.indices_ok(),
                    y < 8,
                    x <= 8,
                    forall|x2: int, y2: int| on_board(x2, y2) && (y2 < y || (y2 == y && x2 < x))
                        && #[trigger] bm.sq(x2, y2) != 0 ==> {
                        let p = bm.at(x2, y2);
                        p.alive && p.x == x2 && p.y == y2
                    },
                decreases 8 - x,
            {
                let id = self.board[y][x];
                assert(id == bm.sq(x as int, y as int));
                if id != 0 {
                    let p = &self.pieces[(id - 1) as usize];
                    if !(p.alive && p.x == x as i32 && p.y == y as i32) {
                        return false;
                    }
                }
                x += 1;
            }
            y += 1;
        }
        let mut i: usize = 0;
        while i < self.pieces.len()
            invariant
                self@ == bm,
                bm.indices_ok(),
                i <= self.pieces.len(),
                forall|x2: int, y2: int| on_board(x2, y2) && #[trigger] bm.sq(x2, y2) != 0 ==> {
                    let p = bm.at(x2, y2);
                    p.alive && p.x == x2 && p.y == y2
                },
                forall|j: int| 0 <= j < i && #[trigger] bm.pieces[j].alive
                    ==> bm.sq(bm.pieces[j].x as int, bm.pieces[j].y as int) == j + 1,
            decreases self.pieces.len() - i,
        {
            let p = &self.pieces[i];
            if p.alive {
                assert(bm.pieces[i as int].alive);
                if self.board[p.y as usize][p.x as usize] as usize != i + 1 {
                    return false;
                }
            }
            i += 1;
        }
        true
    }

    /// Whether every id on the board names a piece and every living piece
    /// stands on the board: what move generation needs to index safely.
    pub fn indices_in_range(&self) -> (r: bool)
        ensures
            r == self@.indices_ok(),
    {
        let ghost bm = self@;
        assert(bm.squares.len() == 8);
        assert(forall|y: int| 0 <= y < 8 ==> #[trigger] bm.squares[y].len() == 8);
        let n = self.pieces.len();
        let mut y: usize = 0;
        while y < 8
            invariant
                self@ == bm,
                n == bm.pieces.len(),
                y <= 8,
                forall|x2: int, y2: int| on_board(x2, y2) && y2 < y ==> #[trigger] bm.sq(x2, y2) as int <= n,
            decreases 8 - y,
        {
            let mut x: usize = 0;
            while x < 8
                invariant
                    self@ == bm,
                    n == bm.pieces.len(),
                    y < 8,
                    x <= 8,
                    forall|x2: int, y2: int| on_board(x2, y2) && (y2 < y || (y2 == y && x2 < x))
                        ==> #[trigger] bm.sq(x2, y2) as int <= n,
                decreases 8 - x,
            {
                let id = self.board[y][x];
                assert(id == bm.sq(x as int, y as int));
                if id as usize > n {
                    return false;
                }
                x += 1;
            }
            y += 1;
        }
        let mut i: usize = 0;
        while i < n
            invariant
                self@ == bm,
                n == bm.pieces.len(),
                i <= n,
                forall|x2: int, y2: int| on_board(x2, y2) ==> #[trigger] bm.sq(x2, y2) as int <= n,
                forall|j: int| 0 <= j < i && #[trigger] bm.pieces[j].alive
                    ==> on_board(bm.pieces[j].x as int, bm.pieces[j].y as int),
            decreases n - i,
        {
            let p = &self.pieces[i];
            if p.alive && !(0 <= p.x && p.x < 8 && 0 <= p.y && p.y < 8) {
                assert(bm.pieces[i as int].alive);
                return false;
            }
            i += 1;
        }
        true
    }

    /// A copy of the board with the same model.
    pub fn copy(&self) -> (r: Board)
        ensures
            r@ == self@,
    {
        let mut pieces: Vec<Piece> = Vec::new();
        let mut i: usize = 0;
        while i < self.pieces.len()
            invariant
                i <= self.pieces.len(),
                pieces@ == self.pieces@.subrange(0, i as int),
            decreases self.pieces.len() - i,
        {
            pieces.push(self.pieces[i]);
            assert(pieces@ =~= self.pieces@.subrange(0, i + 1));
            i += 1;
        }
        assert(pieces@ =~= self.pieces@);
        let r = Board {
            board: self.board,
            pieces,
            side_to_move: self.side_to_move,
            castling: self.castling,
            en_passant: self.en_passant,
            halfmove: self.halfmove,
            fullmove: self.fullmove,
        };
        assert(r@.squares =~~= self@.squares);
        r
    }

    /// Legal moves of `color`: its pseudo-legal moves after which its own
    /// king is not attacked.
    pub fn generate_legal_moves(&self, color: i32) -> (r: Vec<Move>)
        requires
            self@.can_generate(),
            color != i32::MIN,
        ensures
            r@ == self@.legal_seq(color),
            forall|m: Move| #[trigger] r@.contains(m) <==> self@.legal_move(color, m),
    {
        let ghost bm = self@;
        let pseudo = self.generate_pseudo_moves(color);
        let mut legal: Vec<Move> = Vec::new();
        proof {
            lemma_empty_contains::<Move>();
        }
        let mut i: usize = 0;
        while i < pseudo.len()
            invariant
                self@ == bm,
                bm.can_generate(),
                color != i32::MIN,
                i <= pseudo.len(),
                forall|m: Move| #[trigger] pseudo@.contains(m) <==> bm.pseudo_move(color, m),
                pseudo@ == bm.pseudo_seq(color, bm.pieces.len() as int),
                legal@ == pseudo@.subrange(0, i as int).filter(|m: Move| !bm.applied(m).in_check(color)),
                forall|m: Move| #[trigger] legal@.contains(m) <==> (pseudo@.subrange(0, i as int).contains(m)
                    && !bm.applied(m).in_check(color)),
            decreases pseudo.len() - i,
        {
            let m = pseudo[i];
            assert(pseudo@.contains(m));
            proof {
                self.lemma_pseudo_can_apply(color, m);
            }
            let mut b = self.copy();
            b.apply_move(&m);
            let ghost before = legal@;
            if !b.is_in_check(color) {
                push_move(&mut legal, m);
            }
            proof {
                let pred = |m: Move| !bm.applied(m).in_check(color);
                let pre = pseudo@.subrange(0, i as int);
                assert(pseudo@.subrange(0, i + 1) =~= pre.push(m));
                assert(pre.push(m).drop_last() =~= pre);
                reveal(Seq::filter);
                assert(pre.push(m).filter(pred) == if pred(m) { pre.filter(pred).push(m) } else { pre.filter(pred) });
                lemma_push_contains(pre, m);
            }
            i += 1;
        }
        assert(pseudo@.subrange(0, pseudo@.len() as int) =~= pseudo@);
        legal
    }

    /// A pseudo-legal move can be applied without leaving the board's ranges.
    pub proof fn lemma_pseudo_can_apply(&self, color: i32, m: Move)
        requires
            self@.can_generate(),
            self@.pseudo_move(color, m),
        ensures
            self@.can_apply(m),
    {
        let bm = self@;
        let i = choose|i: int| 0 <= i < bm.pieces.len() && #[trigger] bm.gen(i, color, m);
        let p = bm.pieces[i];
        assert(on_board(p.x as int, p.y as int));
        if bm.consistent() {
            assert(bm.sq(p.x as int, p.y as int) == i + 1);
        }
        if p.ptype == KING && bm.castle_move(color, m) {
        } else if p.ptype == KNIGHT || p.ptype == KING {
            let j = choose|j: int| 0 <= j < 8 && #[trigger] bm.step_move(
                p.x as int, p.y as int, color, jump_off(p.ptype, j).0 as int, jump_off(p.ptype, j).1 as int, m);
        } else if p.ptype == BISHOP || p.ptype == ROOK || p.ptype == QUEEN {
            let j = choose|j: int| 0 <= j < slider_dir_count(p.ptype)
                && #[trigger] bm.ray_move(p.x as int, p.y as int, color, slider_dir(p.ptype, j), m);
            let n = choose|n: int| #[trigger] bm.ray_target(p.x as int, p.y as int, color, slider_dir(p.ptype, j), n, m);
        }
    }
}

/// Back-rank piece type on file x of the start position.
pub open spec fn back_rank(x: int) -> u8 {
    if x == 0 || x == 7 { ROOK }
    else if x == 1 || x == 6 { KNIGHT }
    else if x == 2 || x == 5 { BISHOP }
    else if x == 3 { QUEEN }
    else { KING }
}

/// Piece `i` of the start position: first the sixteen pawns file by file
/// (white, then black), then the back ranks file by file (white, then black).
pub open spec fn initial_piece(i: int) -> Piece {
    if i < 16 {
        Piece {
            id: (i + 1) as u16,
            ptype: PAWN,
            color: if i % 2 == 0 { WHITE } else { BLACK },
            x: (i / 2) as i32,
            y: if i % 2 == 0 { 1 } else { 6 },
            last_move: None,
            alive: true,
        }
    } else {
        Piece {
            id: (i + 1) as u16,
            ptype: back_rank((i - 16) / 2),
            color: if i % 2 == 0 { WHITE } else { BLACK },
            x: ((i - 16) / 2) as i32,
            y: if i % 2 == 0 { 0 } else { 7 },
            last_move: None,
            alive: true,
        }
    }
}

/// Id on square (x, y) of the start position.
pub open spec fn initial_sq(x: int, y: int) -> u16 {
    if y == 1 { (2 * x + 1) as u16 }
    else if y == 6 { (2 * x + 2) as u16 }
    else if y == 0 { (2 * x + 17) as u16 }
    else if y == 7 { (2 * x + 18) as u16 }
    else { 0 }
}

/// The model of an empty board with no castling rights, White to move.
pub open spec fn empty_model() -> BoardModel {
    BoardModel {
        squares: Seq::new(8, |y: int| Seq::new(8, |x: int| 0u16)),
        pieces: Seq::empty(),
        side_to_move: WHITE,
        castling: 0,
        en_passant: None,
        halfmove: 0,
        fullmove: 1,
    }
}

/// The model of the start position.
pub open spec fn initial_model() -> BoardModel {
    BoardModel {
        squares: Seq::new(8, |y: int| Seq::new(8, |x: int| initial_sq(x, y))),
        pieces: Seq::new(32, |i: int| initial_piece(i)),
        side_to_move: WHITE,
        castling: CASTLE_WK | CASTLE_WQ | CASTLE_BK | CASTLE_BQ,
        en_passant: None,
        halfmove: 0,
        fullmove: 1,
    }
}

impl Board {
    /// An empty board: no pieces, no castling rights, White to move.
    pub fn empty() -> (b: Board)
        ensures
            b@ == empty_model(),
    {
        let b = Board {
            board: [[0u16; 8]; 8],
            pieces: Vec::new(),
            side_to_move: WHITE,
            castling: 0,
            en_passant: None,
            halfmove: 0,
            fullmove: 1,
        };
        assert(b@.squares =~~= empty_model().squares);
        b
    }

    /// Put a new piece of `ptype` and `color` on (x, y); it gets the next id.
    pub fn add_piece(&mut self, ptype: u8, color: i32, x: i32, y: i32)
        requires
            on_board(x as int, y as int),
            old(self)@.pieces.len() < 65535,
        ensures
            final(self)@ == old(self)@.set_sq(x as int, y as int, (old(self)@.pieces.len() + 1) as u16)
                .push_piece(Piece {
                    id: (old(self)@.pieces.len() + 1) as u16,
                    ptype,
                    color,
                    x,
                    y,
                    last_move: None,
                    alive: true,
                }),
            old(self)@.indices_ok() ==> final(self)@.indices_ok(),
    {
        let id = (self.pieces.len() + 1) as u16;
        let ghost b0 = self@;
        self.set_square(x, y, id);
        self.pieces.push(Piece { id, ptype, color, x, y, last_move: None, alive: true });
        assert(self@.squares =~~= b0.set_sq(x as int, y as int, id).squares);
        assert(self@.pieces =~= b0.set_sq(x as int, y as int, id).push_piece(
            Piece { id, ptype, color, x, y, last_move: None, alive: true }).pieces);
        proof {
            if b0.indices_ok() {
                lemma_set_sq(b0, x as int, y as int, id);
                let b = self@;
                assert forall|i: int| 0 <= i < b.pieces.len() && #[trigger] b.pieces[i].alive
                    implies on_board(b.pieces[i].x as int, b.pieces[i].y as int) by {
                    if i < b0.pieces.len() {
                        assert(b.pieces[i] == b0.pieces[i]);
                    }
                }
                assert forall|x2: int, y2: int| on_board(x2, y2) implies #[trigger] b.sq(x2, y2) as int <= b.pieces.len() by {
                    assert(b.sq(x2, y2) == b0.set_sq(x as int, y as int, id).sq(x2, y2));
                }
            }
        }
    }

    /// The standard start position.
    pub fn new() -> (b: Board)
        ensures
            b@ == initial_model(),
    {
        let mut b = Board::empty();
        b.castling = CASTLE_WK | CASTLE_WQ | CASTLE_BK | CASTLE_BQ;
        b.setup_initial();
        b
    }

    fn setup_initial(&mut self)
        requires
            old(self)@.squares == empty_model().squares,
            old(self)@.pieces.len() == 0,
        ensures
            final(self)@.squares =~~= initial_model().squares,
            final(self)@.pieces =~= initial_model().pieces,
            final(self).side_to_move == old(self).side_to_move,
            final(self).castling == old(self).castling,
            final(self).en_passant == old(self).en_passant,
            final(self).halfmove == old(self).halfmove,
            final(self).fullmove == old(self).fullmove,
    {
        let mut x: i32 = 0;
        while x < 8
            invariant
                0 <= x <= 8,
                self@.indices_ok(),
                self@.pieces =~= Seq::new(2 * x as nat, |i: int| initial_piece(i)),
                forall|x2: int, y2: int| on_board(x2, y2) ==> #[trigger] self@.sq(x2, y2) ==
                    if (y2 == 1 || y2 == 6) && x2 < x { initial_sq(x2, y2) } else { 0 },
                self.side_to_move == old(self).side_to_move,
                self.castling == old(self).castling,
                self.en_passant == old(self).en_passant,
                self.halfmove == old(self).halfmove,
                self.fullmove == old(self).fullmove,
            decreases 8 - x,
        {
            let ghost b0 = self@;
            self.add_piece(PAWN, WHITE, x, 1);
            let ghost b1 = self@;
            self.add_piece(PAWN, BLACK, x, 6);
            proof {
                lemma_set_sq(b0, x as int, 1, (2 * x + 1) as u16);
                lemma_set_sq(b1, x as int, 6, (2 * x + 2) as u16);
                let b = self@;
                assert forall|x2: int, y2: int| on_board(x2, y2) implies #[trigger] b.sq(x2, y2) ==
                    if (y2 == 1 || y2 == 6) && x2 < x + 1 { initial_sq(x2, y2) } else { 0 } by {
                    assert(b.sq(x2, y2) == b1.set_sq(x as int, 6, (2 * x + 2) as u16).sq(x2, y2));
                    assert(b1.sq(x2, y2) == b0.set_sq(x as int, 1, (2 * x + 1) as u16).sq(x2, y2));
                }
            }
            x += 1;
        }
        let mut x: i32 = 0;
        while x < 8
            invariant
                0 <= x <= 8,
                self@.indices_ok(),
                self@.pieces =~= Seq::new((16 + 2 * x) as nat, |i: int| initial_piece(i)),
                forall|x2: int, y2: int| on_board(x2, y2) ==> #[trigger] self@.sq(x2, y2) ==
                    if (y2 == 1 || y2 == 6) || ((y2 == 0 || y2 == 7) && x2 < x) { initial_sq(x2, y2) } else { 0 },
                self.side_to_move == old(self).side_to_move,
                self.castling == old(self).castling,
                self.en_passant == old(self).en_passant,
                self.halfmove == old(self).halfmove,
                self.fullmove == old(self).fullmove,
            decreases 8 - x,
        {
            let t = back_rank_type(x);
            let ghost b0 = self@;
            self.add_piece(t, WHITE, x, 0);
            let ghost b1 = self@;
            self.add_piece(t, BLACK, x, 7);
            proof {
                lemma_set_sq(b0, x as int, 0, (2 * x + 17) as u16);
                lemma_set_sq(b1, x as int, 7, (2 * x + 18) as u16);
                let b = self@;
                assert forall|x2: int, y2: int| on_board(x2, y2) implies #[trigger] b.sq(x2, y2) ==
                    if (y2 == 1 || y2 == 6) || ((y2 == 0 || y2 == 7) && x2 < x + 1) { initial_sq(x2, y2) } else { 0 } by {
                    assert(b.sq(x2, y2) == b1.set_sq(x as int, 7, (2 * x + 18) as u16).sq(x2, y2));
                    assert(b1.sq(x2, y2) == b0.set_sq(x as int, 0, (2 * x + 17) as u16).sq(x2, y2));
                }
            }
            x += 1;
        }
        proof {
            let b = self@;
            assert forall|y: int| 0 <= y < 8 implies #[trigger] b.squares[y] =~= initial_model().squares[y] by {
                assert forall|x2: int| 0 <= x2 < 8 implies b.squares[y][x2] == initial_model().squares[y][x2] by {
                    assert(b.sq(x2, y) == initial_sq(x2, y));
                }
            }
        }
    }

    /// The piece with id `id` (ids start at 1).
    pub fn piece(&self, id: u16) -> (r: &Piece)
        requires
            1 <= id <= self.pieces.len(),
        ensures
            *r == self@.pieces[id - 1],
    {
        &self.pieces[(id - 1) as usize]
    }

    /// The piece whose id stands on (x, y), if any.
    pub fn get_piece(&self, x: i32, y: i32) -> (r: Option<&Piece>)
        requires
            on_board(x as int, y as int),
            self@.sq(x as int, y as int) <= self@.pieces.len(),
        ensures
            match r {
                None => self@.sq(x as int, y as int) == 0,
                Some(p) => self@.sq(x as int, y as int) != 0 && *p == self@.at(x as int, y as int),
            },
    {
        let id = self.id_at(x, y);
        if id == 0 {
            None
        } else {
            Some(self.piece(id))
        }
    }
}

fn back_rank_type(x: i32) -> (t: u8)
    requires
        0 <= x < 8,
    ensures
        t == back_rank(x as int),
{
    if x == 0 || x == 7 { ROOK }
    else if x == 1 || x == 6 { KNIGHT }
    else if x == 2 || x == 5 { BISHOP }
    else if x == 3 { QUEEN }
    else { KING }
}

/// One FNV-1a step: mix in `v`, multiply by the FNV prime (wrapping).
pub open spec fn fnv(h: u64, v: u64) -> u64 {
    (h ^ v).wrapping_mul(0x0100_0000_01b3u64)
}

pub const FNV_OFFSET: u64 = 0xcbf2_9ce4_8422_2325;

impl BoardModel {
    /// Fingerprint code of a square: 0 when empty, otherwise the piece type,
    /// with bit 0x40 set for a non-white piece.
    pub open spec fn square_code(self, x: int, y: int) -> u8 {
        if self.sq(x, y) == 0 {
            0
        } else {
            let p = self.at(x, y);
            p.ptype | if p.color == WHITE { 0u8 } else { 0x40u8 }
        }
    }

    /// FNV hash over the codes of the first `k` squares in row-major order.
    pub open spec fn hash_squares(self, k: int) -> u64
        decreases k,
    {
        if k <= 0 {
            FNV_OFFSET
        } else {
            fnv(self.hash_squares(k - 1), self.square_code((k - 1) % 8, (k - 1) / 8) as u64)
        }
    }

    /// Position fingerprint: the squares' codes, then side to move, castling
    /// rights and the en-passant square.
    pub open spec fn fingerprint(self) -> u64 {
        let h1 = fnv(self.hash_squares(64), if self.side_to_move == WHITE { 1u64 } else { 2u64 });
        let h2 = fnv(h1, self.castling as u64);
        match self.en_passant {
            Some((ex, ey)) => fnv(
                h2,
                0x100u64 | ((#[verifier::truncate] (ex as u64)) << 4u64) | (#[verifier::truncate] (ey as u64)),
            ),
            None => h2,
        }
    }

    /// Two positions look the same: every square shows the same piece type
    /// and colour class (or is empty in both), with the same side to move,
    /// castling rights and en-passant square. Piece ids play no part.
    pub open spec fn looks_like(self, other: BoardModel) -> bool {
        &&& forall|x: int, y: int| on_board(x, y) ==> {
                &&& (#[trigger] self.sq(x, y) == 0) == (other.sq(x, y) == 0)
                &&& self.sq(x, y) != 0 ==> {
                        &&& self.at(x, y).ptype == other.at(x, y).ptype
                        &&& (self.at(x, y).color == WHITE) == (other.at(x, y).color == WHITE)
                    }
            }
        &&& self.side_to_move == other.side_to_move
        &&& self.castling == other.castling
        &&& self.en_passant == other.en_passant
    }
}

impl Board {
    /// Position fingerprint by piece type/colour per square (+ side to move,
    /// castling, en-passant). Used for repetition detection.
    pub fn position_hash(&self) -> (h: u64)
        requires
            self@.ids_ok(),
        ensures
            h == self@.fingerprint(),
    {
        let ghost bm = self@;
        let mut h: u64 = FNV_OFFSET;
        let mut y: usize = 0;
        while y < 8
            invariant
                self@ == bm,
                bm.ids_ok(),
                y <= 8,
                h == bm.hash_squares(8 * y as int),
            decreases 8 - y,
        {
            let mut x: usize = 0;
            while x < 8
                invariant
                    self@ == bm,
                    bm.ids_ok(),
                    y < 8,
                    x <= 8,
                    h == bm.hash_squares(8 * y + x),
                decreases 8 - x,
            {
                let id = self.board[y][x];
                assert(on_board(x as int, y as int));
                assert(id == bm.sq(x as int, y as int));
                let code: u8 = if id == 0 {
                    0
                } else {
                    let p = self.piece(id);
                    p.ptype | if p.color == WHITE { 0 } else { 0x40 }
                };
                assert(((8 * y + x) as int) % 8 == x as int && ((8 * y + x) as int) / 8 == y as int);
                assert(code == bm.square_code(x as int, y as int));
                h = (h ^ code as u64).wrapping_mul(0x0100_0000_01b3);
                x += 1;
            }
            y += 1;
        }
        h = (h ^ if self.side_to_move == WHITE { 1 } else { 2 }).wrapping_mul(0x0100_0000_01b3);
        h = (h ^ self.castling as u64).wrapping_mul(0x0100_0000_01b3);
        if let Some((ex, ey)) = self.en_passant {
            h = (h ^ (0x100 | ((#[verifier::truncate] (ex as u64)) << 4)
                | (#[verifier::truncate] (ey as u64)))).wrapping_mul(0x0100_0000_01b3);
        }
        h
    }
}

/// Steps a ray at (nx, ny) may still take before leaving the board.
pub open spec fn ray_room(nx: int, ny: int, d: (i32, i32)) -> int {
    if d.0 > 0 { 8 - nx } else if d.0 < 0 { nx + 1 } else if d.1 > 0 { 8 - ny } else { ny + 1 }
}

impl Board {
    /// Id on an on-board square.
    fn id_at(&self, x: i32, y: i32) -> (r: u16)
        requires
            on_board(x as int, y as int),
        ensures
            r == self@.sq(x as int, y as int),
    {
        self.board[y as usize][x as usize]
    }

    /// A living piece of colour `c` and type `t` stands on (x, y).
    fn holds_at(&self, x: i32, y: i32, c: i32, t: u8) -> (r: bool)
        requires
            self@.ids_ok(),
        ensures
            r == self@.holds(x as int, y as int, c, t),
    {
        if !in_bounds(x, y) {
            return false;
        }
        let id = self.id_at(x, y);
        if id == 0 {
            return false;
        }
        let p = &self.pieces[(id - 1) as usize];
        p.alive && p.color == c && p.ptype == t
    }

    /// Whether the first piece seen from (x, y) along `d` is a living piece of
    /// colour `c` and type `t1` or `t2`.
    fn ray_hits(&self, x: i32, y: i32, d: (i32, i32), c: i32, t1: u8, t2: u8) -> (r: bool)
        requires
            self@.ids_ok(),
            unit_dir(d),
            d.0 != 0 || d.1 != 0,
            i32::MIN + 2 <= x <= i32::MAX - 2,
            i32::MIN + 2 <= y <= i32::MAX - 2,
        ensures
            r == self@.ray_attack(x as int, y as int, d, c, t1, t2),
    {
        let (dx, dy) = d;
        let mut nx = x + dx;
        let mut ny = y + dy;
        let ghost mut n: int = 1;
        while in_bounds(nx, ny)
            invariant
                self@.ids_ok(),
                unit_dir(d),
                d == (dx, dy),
                d.0 != 0 || d.1 != 0,
                n >= 1,
                nx == shift(x as int, dx as int, n),
                ny == shift(y as int, dy as int, n),
                self@.ray_clear(x as int, y as int, d, n),
            decreases ray_room(nx as int, ny as int, d),
        {
            let id = self.id_at(nx, ny);
            if id != 0 {
                let p = &self.pieces[(id - 1) as usize];
                if p.alive && p.color == c && (p.ptype == t1 || p.ptype == t2) {
                    assert(self@.ray_clear(x as int, y as int, d, n));
                    return true;
                }
                proof {
                    let bm = self@;
                    assert forall|n2: int| n2 >= 1 && #[trigger] bm.ray_clear(x as int, y as int, d, n2)
                        implies !(bm.holds(shift(x as int, d.0 as int, n2), shift(y as int, d.1 as int, n2), c, t1)
                            || bm.holds(shift(x as int, d.0 as int, n2), shift(y as int, d.1 as int, n2), c, t2)) by {
                        if n2 < n {
                            assert(on_board(shift(x as int, d.0 as int, n2), shift(y as int, d.1 as int, n2)));
                        } else if n2 > n {
                            assert(on_board(shift(x as int, d.0 as int, n), shift(y as int, d.1 as int, n)));
                        }
                    }
                }
                return false;
            }
            proof {
                let bm = self@;
                assert forall|j: int| 1 <= j < n + 1 implies {
                    &&& on_board(#[trigger] shift(x as int, d.0 as int, j), shift(y as int, d.1 as int, j))
                    &&& bm.sq(shift(x as int, d.0 as int, j), shift(y as int, d.1 as int, j)) == 0
                } by {
                    if j < n {
                        assert(on_board(shift(x as int, d.0 as int, j), shift(y as int, d.1 as int, j)));
                    }
                }
                n = n + 1;
            }
            nx = nx + dx;
            ny = ny + dy;
        }
        proof {
            let bm = self@;
            assert forall|n2: int| n2 >= 1 && #[trigger] bm.ray_clear(x as int, y as int, d, n2)
                implies !(bm.holds(shift(x as int, d.0 as int, n2), shift(y as int, d.1 as int, n2), c, t1)
                    || bm.holds(shift(x as int, d.0 as int, n2), shift(y as int, d.1 as int, n2), c, t2)) by {
                if n2 < n {
                    assert(on_board(shift(x as int, d.0 as int, n2), shift(y as int, d.1 as int, n2)));
                } else if n2 > n {
                    assert(on_board(shift(x as int, d.0 as int, n), shift(y as int, d.1 as int, n)));
                }
            }
        }
        false
    }

    /// Whether square (x, y) is attacked by a living piece of colour `by_color`.
    /// The coordinates keep two squares of room from the ends of `i32`, and a
    /// pawn square looked at whose file is on the board has its rank there too.
    pub fn is_square_attacked(&self, x: i32, y: i32, by_color: i32) -> (r: bool)
        requires
            self@.ids_ok(),
            i32::MIN + 2 <= x <= i32::MAX - 2,
            i32::MIN + 2 <= y <= i32::MAX - 2,
            by_color == WHITE && y >= 9 ==> x < -1 || x > 8,
            by_color != WHITE && y <= -2 ==> x < -1 || x > 8,
        ensures
            r == self@.attacked(x as int, y as int, by_color),
            (by_color == WHITE || by_color == BLACK) && on_board(x as int, y as int) ==> (r <==> exists|px: int, py: int|
                #[trigger] crate::move_laws::attacks_from(self@, by_color, px, py, x as int, y as int)),
    {
        proof {
            if (by_color == WHITE || by_color == BLACK) && on_board(x as int, y as int) {
                crate::move_laws::lemma_attack_geometry(self@, x as int, y as int, by_color);
            }
        }
        self.attack_scan(x, y, by_color)
    }

    /// The attack test of `is_square_attacked`, pattern by pattern.
    fn attack_scan(&self, x: i32, y: i32, by_color: i32) -> (r: bool)
        requires
            self@.ids_ok(),
            i32::MIN + 2 <= x <= i32::MAX - 2,
            i32::MIN + 2 <= y <= i32::MAX - 2,
            by_color == WHITE && y >= 9 ==> x < -1 || x > 8,
            by_color != WHITE && y <= -2 ==> x < -1 || x > 8,
        ensures
            r == self@.attacked(x as int, y as int, by_color),
    {
        let bm = Ghost(self@);
        // Pawns.
        if by_color == WHITE {
            if self.holds_at(x - 1, y - 1, WHITE, PAWN) || self.holds_at(x + 1, y - 1, WHITE, PAWN) {
                return true;
            }
        } else {
            if self.holds_at(x - 1, y + 1, BLACK, PAWN) || self.holds_at(x + 1, y + 1, BLACK, PAWN) {
                return true;
            }
        }
        // Knights.
        let mut k: usize = 0;
        while k < 8
            invariant
                self@ == bm@,
                bm@.ids_ok(),
                k <= 8,
                i32::MIN + 2 <= x <= i32::MAX - 2,
                i32::MIN + 2 <= y <= i32::MAX - 2,
                forall|j: int| 0 <= j < k ==> !#[trigger] bm@.holds(
                    x + knight_off(j).0, y + knight_off(j).1, by_color, KNIGHT),
            decreases 8 - k,
        {
            let (dx, dy) = knight_offset(k);
            if self.holds_at(x + dx, y + dy, by_color, KNIGHT) {
                return true;
            }
            k += 1;
        }
        // Bishops / queens (diagonal).
        let mut k: usize = 0;
        while k < 4
            invariant
                self@ == bm@,
                bm@.ids_ok(),
                k <= 4,
                i32::MIN + 2 <= x <= i32::MAX - 2,
                i32::MIN + 2 <= y <= i32::MAX - 2,
                forall|j: int| 0 <= j < k ==> !#[trigger] bm@.ray_attack(
                    x as int, y as int, bishop_dir(j), by_color, BISHOP, QUEEN),
            decreases 4 - k,
        {
            if self.ray_hits(x, y, bishop_direction(k), by_color, BISHOP, QUEEN) {
                return true;
            }
            k += 1;
        }
        // Rooks / queens (orthogonal).
        let mut k: usize = 0;
        while k < 4
            invariant
                self@ == bm@,
                bm@.ids_ok(),
                k <= 4,
                i32::MIN + 2 <= x <= i32::MAX - 2,
                i32::MIN + 2 <= y <= i32::MAX - 2,
                forall|j: int| 0 <= j < k ==> !#[trigger] bm@.ray_attack(
                    x as int, y as int, rook_dir(j), by_color, ROOK, QUEEN),
            decreases 4 - k,
        {
            if self.ray_hits(x, y, rook_direction(k), by_color, ROOK, QUEEN) {
                return true;
            }
            k += 1;
        }
        // King.
        let mut k: usize = 0;
        while k < 8
            invariant
                self@ == bm@,
                bm@.ids_ok(),
                k <= 8,
                i32::MIN + 2 <= x <= i32::MAX - 2,
                i32::MIN + 2 <= y <= i32::MAX - 2,
                forall|j: int| 0 <= j < k ==> !#[trigger] bm@.holds(
                    x + king_off(j).0, y + king_off(j).1, by_color, KING),
            decreases 8 - k,
        {
            let (dx, dy) = king_offset(k);
            if self.holds_at(x + dx, y + dy, by_color, KING) {
                return true;
            }
            k += 1;
        }
        false
    }

    /// Position of the first living king of `color`, if any.
    pub fn find_king(&self, color: i32) -> (r: Option<(i32, i32)>)
        ensures
            r == self@.king_pos(color),
            self@.indices_ok() ==> (r matches Some((kx, ky)) ==> on_board(kx as int, ky as int)),
    {
        let mut i: usize = 0;
        while i < self.pieces.len()
            invariant
                i <= self.pieces.len(),
                self@.king_pos(color) == self@.king_from(color, i as int),
            decreases self.pieces.len() - i,
        {
            let p = &self.pieces[i];
            if p.alive && p.ptype == KING && p.color == color {
                return Some((p.x, p.y));
            }
            i += 1;
        }
        None
    }

    /// Whether the king of `color` is attacked by the other colour.
    pub fn is_in_check(&self, color: i32) -> (r: bool)
        requires
            self@.indices_ok(),
            color != i32::MIN,
        ensures
            r == self@.in_check(color),
    {
        match self.find_king(color) {
            Some((kx, ky)) => self.is_square_attacked(kx, ky, -color),
            None => false,
        }
    }
}

} // verus!
