//! The integer geometry the flow fields are built on: paths of moves,
//! reachable target squares, pawn cover, king zones and mobility counts.

use vstd::prelude::*;
use crate::board::{Board, BoardModel, Move, Piece, shift, unit_dir, pawn_dir, jump_off};
use crate::seq_facts::lemma_add_contains;
use crate::constants::{
    on_board, in_bounds, knight_offset, king_offset, slider_dirs, slider_dir_seq, slider_dir,
    slider_dir_count, lemma_slider_dir_seq, WHITE, BLACK, PAWN, KNIGHT, KING,
};

verus! {

/// Sign of an integer: -1, 0 or 1.
pub open spec fn sign(v: int) -> int {
    if v > 0 { 1 } else if v < 0 { -1 } else { 0 }
}

/// A move from (fx, fy) to (tx, ty) runs along a rank, file or diagonal.
pub open spec fn aligned(fx: int, fy: int, tx: int, ty: int) -> bool {
    let dx = tx - fx;
    let dy = ty - fy;
    dx == 0 || dy == 0 || dx == dy || dx == -dy
}

/// Number of squares a path covers.
pub open spec fn path_len(fx: int, fy: int, tx: int, ty: int) -> int {
    let dx = tx - fx;
    let dy = ty - fy;
    if !aligned(fx, fy, tx, ty) {
        1
    } else if dx == 0 && dy == 0 {
        1
    } else if dx != 0 {
        if dx > 0 { dx } else { -dx }
    } else {
        if dy > 0 { dy } else { -dy }
    }
}

/// Squares of a move's path, excluding the start: for a rank, file or
/// diagonal move every square up to and including the target (the start
/// square itself when start and target coincide); for any other move only
/// the target.
pub open spec fn path_seq(fx: int, fy: int, tx: int, ty: int) -> Seq<(i32, i32)> {
    if aligned(fx, fy, tx, ty) && !(fx == tx && fy == ty) {
        Seq::new(path_len(fx, fy, tx, ty) as nat, |k: int|
            (shift(fx, sign(tx - fx), k + 1) as i32, shift(fy, sign(ty - fy), k + 1) as i32))
    } else if fx == tx && fy == ty {
        seq![(fx as i32, fy as i32)]
    } else {
        seq![(tx as i32, ty as i32)]
    }
}

/// Squares crossed by a move (excluding the start), ending on the target.
/// The coordinate differences must fit in `i32`, and when both are non-zero
/// neither may be `i32::MIN` (their absolute values are compared).
pub fn path_squares(fx: i32, fy: i32, tx: i32, ty: i32) -> (r: Vec<(i32, i32)>)
    requires
        i32::MIN <= tx - fx <= i32::MAX,
        i32::MIN <= ty - fy <= i32::MAX,
        tx - fx != 0 && ty - fy != 0 ==> tx - fx != i32::MIN && ty - fy != i32::MIN,
    ensures
        r@ == path_seq(fx as int, fy as int, tx as int, ty as int),
{
    let mut squares: Vec<(i32, i32)> = Vec::new();
    let dx = tx - fx;
    let dy = ty - fy;
    let step_x: i32 = if dx == 0 { 0 } else if dx > 0 { 1 } else { -1 };
    let step_y: i32 = if dy == 0 { 0 } else if dy > 0 { 1 } else { -1 };
    if dx == 0 || dy == 0 || (if dx >= 0 { dx } else { -dx }) == (if dy >= 0 { dy } else { -dy }) {
        if dx == 0 && dy == 0 {
            squares.push((fx, fy));
            assert(squares@ =~= path_seq(fx as int, fy as int, tx as int, ty as int));
            return squares;
        }
        let ghost len = path_len(fx as int, fy as int, tx as int, ty as int);
        let (mut x, mut y) = (fx + step_x, fy + step_y);
        let ghost mut k: int = 0;
        loop
            invariant_except_break
                squares@ =~= path_seq(fx as int, fy as int, tx as int, ty as int).take(k),
            invariant
                0 <= k < len,
                len == path_len(fx as int, fy as int, tx as int, ty as int),
                aligned(fx as int, fy as int, tx as int, ty as int),
                !(dx == 0 && dy == 0),
                dx == tx - fx,
                dy == ty - fy,
                step_x as int == sign(tx - fx),
                step_y as int == sign(ty - fy),
                x as int == shift(fx as int, step_x as int, k + 1),
                y as int == shift(fy as int, step_y as int, k + 1),
            ensures
                squares@ =~= path_seq(fx as int, fy as int, tx as int, ty as int),
            decreases len - k,
        {
            squares.push((x, y));
            if x == tx && y == ty {
                assert(k + 1 == len);
                assert(squares@ =~= path_seq(fx as int, fy as int, tx as int, ty as int));
                break;
            }
            assert(k + 1 < len);
            x += step_x;
            y += step_y;
            proof {
                k = k + 1;
            }
        }
    } else {
        squares.push((tx, ty));
        assert(squares@ =~= path_seq(fx as int, fy as int, tx as int, ty as int));
    }
    squares
}

impl BoardModel {
    /// Squares along the ray from (x, y) in direction `d`, from step `n` on:
    /// the empty squares, then the first occupied square when `any_blocker`
    /// is set or it holds a piece not of colour `c`.
    pub open spec fn ray_seq(self, x: int, y: int, d: (i32, i32), c: i32, any_blocker: bool, n: int)
        -> Seq<(i32, i32)>
        decreases 9 - n,
    {
        if n >= 9 {
            Seq::empty()
        } else {
            let px = shift(x, d.0 as int, n);
            let py = shift(y, d.1 as int, n);
            if !on_board(px, py) {
                Seq::empty()
            } else if self.sq(px, py) != 0 {
                if any_blocker || self.at(px, py).color != c {
                    seq![(px as i32, py as i32)]
                } else {
                    Seq::empty()
                }
            } else {
                seq![(px as i32, py as i32)] + self.ray_seq(x, y, d, c, any_blocker, n + 1)
            }
        }
    }

    /// Ray squares of a slider of type `t` over its first `k` directions.
    pub open spec fn slider_seq(self, x: int, y: int, c: i32, t: u8, any_blocker: bool, k: int) -> Seq<(i32, i32)>
        decreases k,
    {
        if k <= 0 {
            Seq::empty()
        } else {
            self.slider_seq(x, y, c, t, any_blocker, k - 1) + self.ray_seq(x, y, slider_dir(t, k - 1), c, any_blocker, 1)
        }
    }
}

/// On-board squares among the first `k` jumps (knight) or steps (king) from (x, y).
pub open spec fn jump_seq(x: int, y: int, kind: u8, k: int) -> Seq<(i32, i32)>
    decreases k,
{
    if k <= 0 {
        Seq::empty()
    } else {
        let (dx, dy) = jump_off(kind, k - 1);
        let tx = x + dx;
        let ty = y + dy;
        if on_board(tx, ty) {
            jump_seq(x, y, kind, k - 1).push((tx as i32, ty as i32))
        } else {
            jump_seq(x, y, kind, k - 1)
        }
    }
}

/// Pawn targets: the push square (when asked for), then the two diagonal squares.
pub open spec fn pawn_target_seq(x: int, y: int, c: i32, forward: bool) -> Seq<(i32, i32)> {
    let ty = y + pawn_dir(c);
    let push: Seq<(i32, i32)> = if forward && on_board(x, ty) { seq![(x as i32, ty as i32)] } else { Seq::empty() };
    let left: Seq<(i32, i32)> = if on_board(x - 1, ty) { seq![((x - 1) as i32, ty as i32)] } else { Seq::empty() };
    let right: Seq<(i32, i32)> = if on_board(x + 1, ty) { seq![((x + 1) as i32, ty as i32)] } else { Seq::empty() };
    push + left + right
}

impl BoardModel {
    /// Target squares of a piece for the trace (forward = false) and future
    /// (forward = true) fields: pawn diagonals (plus the push square for the
    /// future field), knight jumps and king steps on the board, and slider
    /// rays up to the first occupied square, which counts for the future
    /// field and, for the trace field, only when it holds an enemy.
    pub open spec fn target_seq(self, p: Piece, c: i32, forward: bool) -> Seq<(i32, i32)> {
        let (x, y) = (p.x as int, p.y as int);
        if p.ptype == PAWN {
            pawn_target_seq(x, y, c, forward)
        } else if p.ptype == KNIGHT {
            jump_seq(x, y, KNIGHT, 8)
        } else if p.ptype == KING {
            jump_seq(x, y, KING, 8)
        } else {
            self.slider_seq(x, y, c, p.ptype, forward, slider_dir_count(p.ptype))
        }
    }
}

/// Append the squares of one ray.
fn push_ray(board: &Board, x: i32, y: i32, d: (i32, i32), color: i32, any_blocker: bool, out: &mut Vec<(i32, i32)>)
    requires
        board@.ids_ok(),
        on_board(x as int, y as int),
        unit_dir(d),
        d.0 != 0 || d.1 != 0,
    ensures
        final(out)@ == old(out)@ + board@.ray_seq(x as int, y as int, d, color, any_blocker, 1),
{
    let ghost bm = board@;
    let (dx, dy) = d;
    let mut nx = x + dx;
    let mut ny = y + dy;
    let ghost mut n: int = 1;
    while in_bounds(nx, ny)
        invariant
            board@ == bm,
            bm.ids_ok(),
            on_board(x as int, y as int),
            unit_dir(d),
            d == (dx, dy),
            d.0 != 0 || d.1 != 0,
            1 <= n <= 8,
            nx == shift(x as int, dx as int, n),
            ny == shift(y as int, dy as int, n),
            old(out)@ + bm.ray_seq(x as int, y as int, d, color, any_blocker, 1)
                == out@ + bm.ray_seq(x as int, y as int, d, color, any_blocker, n),
        decreases 9 - n,
    {
        let target = board.board[ny as usize][nx as usize];
        assert(target == bm.sq(nx as int, ny as int));
        if target != 0 {
            if any_blocker || board.pieces[(target - 1) as usize].color != color {
                out.push((nx, ny));
            }
            assert(out@ =~= old(out)@ + bm.ray_seq(x as int, y as int, d, color, any_blocker, 1));
            return;
        }
        let ghost before = out@;
        out.push((nx, ny));
        assert(before + bm.ray_seq(x as int, y as int, d, color, any_blocker, n)
            =~= out@ + bm.ray_seq(x as int, y as int, d, color, any_blocker, n + 1));
        nx = nx + dx;
        ny = ny + dy;
        proof {
            n = n + 1;
        }
    }
    assert(out@ =~= old(out)@ + bm.ray_seq(x as int, y as int, d, color, any_blocker, 1));
}

/// Reachable target squares of a piece for the trace and future fields;
/// `include_forward_pawn` selects the future-field variant.
pub fn piece_targets(board: &Board, piece: &Piece, color: i32, include_forward_pawn: bool) -> (r: Vec<(i32, i32)>)
    requires
        board@.ids_ok(),
        on_board(piece.x as int, piece.y as int),
    ensures
        r@ == board@.target_seq(*piece, color, include_forward_pawn),
        PAWN <= piece.ptype <= crate::constants::KING ==> forall|e: (i32, i32)| #[trigger] r@.contains(e)
            <==> crate::field_laws::target_geometry(board@, *piece, color, include_forward_pawn, e),
{
    proof {
        if PAWN <= piece.ptype <= crate::constants::KING {
            assert forall|e: (i32, i32)| #[trigger] board@.target_seq(*piece, color, include_forward_pawn).contains(e)
                <==> crate::field_laws::target_geometry(board@, *piece, color, include_forward_pawn, e) by {
                crate::field_laws::lemma_target_squares(board@, *piece, color, include_forward_pawn, e);
            }
        }
    }
    let mut targets: Vec<(i32, i32)> = Vec::new();
    let (x, y) = (piece.x, piece.y);
    if piece.ptype == PAWN {
        let diry: i32 = if color == WHITE { 1 } else { -1 };
        if include_forward_pawn {
            let one_y = y + diry;
            if in_bounds(x, one_y) {
                targets.push((x, one_y));
            }
        }
        if in_bounds(x - 1, y + diry) {
            targets.push((x - 1, y + diry));
        }
        if in_bounds(x + 1, y + diry) {
            targets.push((x + 1, y + diry));
        }
        assert(targets@ =~= pawn_target_seq(x as int, y as int, color, include_forward_pawn));
    } else if piece.ptype == KNIGHT || piece.ptype == KING {
        let mut k: usize = 0;
        while k < 8
            invariant
                k <= 8,
                on_board(x as int, y as int),
                piece.ptype == KNIGHT || piece.ptype == KING,
                targets@ == jump_seq(x as int, y as int, piece.ptype, k as int),
            decreases 8 - k,
        {
            let (dx, dy) = if piece.ptype == KNIGHT { knight_offset(k) } else { king_offset(k) };
            if in_bounds(x + dx, y + dy) {
                targets.push((x + dx, y + dy));
            }
            k += 1;
        }
    } else {
        let dirs = slider_dirs(piece.ptype);
        proof {
            lemma_slider_dir_seq(piece.ptype);
        }
        let mut k: usize = 0;
        while k < dirs.len()
            invariant
                board@.ids_ok(),
                on_board(x as int, y as int),
                dirs@ == slider_dir_seq(piece.ptype),
                dirs@.len() == slider_dir_count(piece.ptype),
                forall|j: int| 0 <= j < slider_dir_count(piece.ptype)
                    ==> #[trigger] slider_dir_seq(piece.ptype)[j] == slider_dir(piece.ptype, j),
                k <= dirs.len(),
                targets@ == board@.slider_seq(x as int, y as int, color, piece.ptype, include_forward_pawn, k as int),
            decreases dirs.len() - k,
        {
            let d = dirs[k];
            assert(d == slider_dir(piece.ptype, k as int));
            assert(unit_dir(d) && (d.0 != 0 || d.1 != 0)) by {
                assert(0 <= k < 8);
            }
            push_ray(board, x, y, d, color, include_forward_pawn, &mut targets);
            k += 1;
        }
    }
    targets
}

/// Chebyshev distance between two squares.
pub open spec fn king_dist(x: int, y: int, kx: int, ky: int) -> int {
    let ax = if x - kx >= 0 { x - kx } else { kx - x };
    let ay = if y - ky >= 0 { y - ky } else { ky - y };
    if ax >= ay { ax } else { ay }
}

/// Ring of square (x, y) around a king on (kx, ky): 1 for the adjacent
/// squares, 2 for the squares two steps away, 0 elsewhere.
pub open spec fn king_ring(x: int, y: int, kx: int, ky: int) -> u8 {
    let d = king_dist(x, y, kx, ky);
    if d == 1 { 1 } else if d == 2 { 2 } else { 0 }
}

/// King-zone rings around (kx, ky), indexed [y][x]. The differences to
/// every board coordinate must fit in `i32`.
pub fn king_zone_ring(kx: i32, ky: i32) -> (r: [[u8; 8]; 8])
    requires
        kx >= i32::MIN + 8,
        ky >= i32::MIN + 8,
    ensures
        forall|x: int, y: int| on_board(x, y) ==> #[trigger] r@[y]@[x] == king_ring(x, y, kx as int, ky as int),
        forall|x: int, y: int| on_board(x, y) ==> {
            let (dx, dy) = (x - kx, y - ky);
            &&& (#[trigger] r@[y]@[x] == 1 <==> crate::move_laws::king_step(dx, dy))
            &&& (r@[y]@[x] == 2 <==> !crate::move_laws::king_step(dx, dy) && !(dx == 0 && dy == 0)
                    && -2 <= dx <= 2 && -2 <= dy <= 2)
            &&& (r@[y]@[x] == 0 <==> (dx == 0 && dy == 0) || dx < -2 || dx > 2 || dy < -2 || dy > 2)
        },
{
    let mut w = [[0u8; 8]; 8];
    let mut y: i32 = 0;
    while y < 8
        invariant
            0 <= y <= 8,
            kx >= i32::MIN + 8,
            ky >= i32::MIN + 8,
            forall|x2: int, y2: int| on_board(x2, y2) && y2 < y ==> #[trigger] w@[y2]@[x2] == king_ring(x2, y2, kx as int, ky as int),
        decreases 8 - y,
    {
        let mut x: i32 = 0;
        while x < 8
            invariant
                0 <= y < 8,
                0 <= x <= 8,
                kx >= i32::MIN + 8,
                ky >= i32::MIN + 8,
                forall|x2: int, y2: int| on_board(x2, y2) && (y2 < y || (y2 == y && x2 < x))
                    ==> #[trigger] w@[y2]@[x2] == king_ring(x2, y2, kx as int, ky as int),
            decreases 8 - x,
        {
            let ax = if x - kx >= 0 { x - kx } else { kx - x };
            let ay = if y - ky >= 0 { y - ky } else { ky - y };
            let dist = if ax >= ay { ax } else { ay };
            let v: u8 = if dist == 1 { 1 } else if dist == 2 { 2 } else { 0 };
            let ghost before = w;
            w[y as usize][x as usize] = v;
            proof {
                assert forall|x2: int, y2: int| on_board(x2, y2) && (y2 < y || (y2 == y && x2 < x + 1))
                    implies #[trigger] w@[y2]@[x2] == king_ring(x2, y2, kx as int, ky as int) by {
                    if !(x2 == x && y2 == y) {
                        assert(w@[y2]@[x2] == before@[y2]@[x2]);
                    }
                }
            }
            x += 1;
        }
        y += 1;
    }
    w
}

impl BoardModel {
    /// Among the first `i` pieces, a living pawn of colour `c` attacks (x, y).
    pub open spec fn pawn_covers_upto(self, c: i32, i: int, x: int, y: int) -> bool {
        exists|j: int| 0 <= j < i && #[trigger] self.pawn_covers_by(j, c, x, y)
    }

    /// Piece `j` is a living pawn of colour `c` attacking (x, y).
    pub open spec fn pawn_covers_by(self, j: int, c: i32, x: int, y: int) -> bool {
        let p = self.pieces[j];
        &&& p.alive && p.color == c && p.ptype == PAWN
        &&& y == p.y + pawn_dir(c)
        &&& (x == p.x - 1 || x == p.x + 1)
    }

    /// A living pawn of colour `c` attacks (x, y).
    pub open spec fn pawn_covers(self, c: i32, x: int, y: int) -> bool {
        self.pawn_covers_upto(c, self.pieces.len() as int, x, y)
    }
}

/// A living pawn of colour `c` stands one rank behind (x, y), seen from
/// `c`'s side, on an adjacent file.
pub open spec fn living_pawn_behind(b: BoardModel, c: i32, x: int, y: int) -> bool {
    exists|i: int| #![trigger b.pieces[i]]
        0 <= i < b.pieces.len()
        && b.pieces[i].alive
        && b.pieces[i].ptype == PAWN
        && b.pieces[i].color == c
        && y == b.pieces[i].y + pawn_dir(c)
        && (x - b.pieces[i].x == 1 || b.pieces[i].x - x == 1)
}

/// Pawn cover is exactly the diagonal forward squares of the living pawns:
/// captured pawns cover nothing, and every living pawn covers both squares
/// diagonally in front of it.
pub proof fn lemma_pawn_cover_is_living_pawns(b: BoardModel, c: i32, x: int, y: int)
    ensures
        b.pawn_covers(c, x, y) <==> living_pawn_behind(b, c, x, y),
{
    if b.pawn_covers(c, x, y) {
        let j = choose|j: int| 0 <= j < b.pieces.len() && #[trigger] b.pawn_covers_by(j, c, x, y);
        assert(b.pieces[j].alive);
    }
    if living_pawn_behind(b, c, x, y) {
        let i = choose|i: int| #![trigger b.pieces[i]]
            0 <= i < b.pieces.len()
            && b.pieces[i].alive
            && b.pieces[i].ptype == PAWN
            && b.pieces[i].color == c
            && y == b.pieces[i].y + pawn_dir(c)
            && (x - b.pieces[i].x == 1 || b.pieces[i].x - x == 1);
        assert(b.pawn_covers_by(i, c, x, y));
    }
}

/// Squares attacked by the pawns of `color`, indexed [y][x].
pub fn pawn_attack_map(board: &Board, color: i32) -> (r: [[bool; 8]; 8])
    requires
        board@.indices_ok(),
    ensures
        forall|x: int, y: int| on_board(x, y) ==> #[trigger] r@[y]@[x] == board@.pawn_covers(color, x, y),
        forall|x: int, y: int| on_board(x, y) ==> (#[trigger] r@[y]@[x] <==> living_pawn_behind(board@, color, x, y)),
{
    let ghost bm = board@;
    let mut a = [[false; 8]; 8];
    let mut i: usize = 0;
    while i < board.pieces.len()
        invariant
            board@ == bm,
            bm.indices_ok(),
            i <= bm.pieces.len(),
            forall|x: int, y: int| on_board(x, y) ==> #[trigger] a@[y]@[x] == bm.pawn_covers_upto(color, i as int, x, y),
        decreases board.pieces.len() - i,
    {
        let p = &board.pieces[i];
        let ghost before = a;
        if p.alive && p.color == color && p.ptype == PAWN {
            assert(on_board(p.x as int, p.y as int));
            let diry: i32 = if color == WHITE { 1 } else { -1 };
            let y = p.y + diry;
            if in_bounds(p.x - 1, y) {
                a[y as usize][(p.x - 1) as usize] = true;
            }
            if in_bounds(p.x + 1, y) {
                a[y as usize][(p.x + 1) as usize] = true;
            }
        }
        proof {
            assert forall|x: int, y: int| on_board(x, y) implies #[trigger] a@[y]@[x] == bm.pawn_covers_upto(color, i + 1, x, y) by {
                if bm.pawn_covers_upto(color, i + 1, x, y) {
                    let j = choose|j: int| 0 <= j < i + 1 && #[trigger] bm.pawn_covers_by(j, color, x, y);
                    if j < i {
                        assert(bm.pawn_covers_upto(color, i as int, x, y));
                    }
                }
                if before@[y]@[x] {
                    let j = choose|j: int| 0 <= j < i && #[trigger] bm.pawn_covers_by(j, color, x, y);
                    assert(bm.pawn_covers_by(j, color, x, y));
                }
                if a@[y]@[x] && !before@[y]@[x] {
                    assert(bm.pawn_covers_by(i as int, color, x, y));
                }
            }
        }
        i += 1;
    }
    proof {
        assert forall|x: int, y: int| on_board(x, y) implies (#[trigger] a@[y]@[x] <==> living_pawn_behind(bm, color, x, y)) by {
            lemma_pawn_cover_is_living_pawns(bm, color, x, y);
        }
    }
    a
}

/// Number of the first `k` knight jumps from (x, y) that land on the board
/// on an empty square or a piece not of colour `c`.
pub open spec fn knight_free_count(b: BoardModel, x: int, y: int, c: i32, k: int) -> int
    decreases k,
{
    if k <= 0 {
        0
    } else {
        let (dx, dy) = jump_off(KNIGHT, k - 1);
        let tx = x + dx;
        let ty = y + dy;
        knight_free_count(b, x, y, c, k - 1) + if on_board(tx, ty) && (b.sq(tx, ty) == 0 || b.at(tx, ty).color != c) {
            1int
        } else {
            0int
        }
    }
}

impl BoardModel {
    /// Mobility of a piece: knight jumps onto empty or enemy squares; for
    /// bishops, rooks and queens the squares along their rays up to and
    /// including the first occupied one; 0 for other pieces.
    pub open spec fn mobility(self, p: Piece) -> int {
        let (x, y) = (p.x as int, p.y as int);
        if p.ptype == KNIGHT {
            knight_free_count(self, x, y, p.color, 8)
        } else if p.ptype == crate::constants::BISHOP || p.ptype == crate::constants::ROOK
            || p.ptype == crate::constants::QUEEN {
            self.slider_seq(x, y, p.color, p.ptype, true, slider_dir_count(p.ptype)).len() as int
        } else {
            0
        }
    }
}

/// Mobility count of a piece (see `BoardModel::mobility`).
pub fn piece_mobility(board: &Board, piece: &Piece) -> (r: i32)
    requires
        board@.ids_ok(),
        on_board(piece.x as int, piece.y as int),
    ensures
        r == board@.mobility(*piece),
        PAWN <= piece.ptype <= KING ==> {
            &&& piece.ptype == KNIGHT ==> r == board@.reach_seq(*piece, piece.color).len()
            &&& (piece.ptype == crate::constants::BISHOP || piece.ptype == crate::constants::ROOK
                    || piece.ptype == crate::constants::QUEEN) ==> r == board@.target_seq(*piece, piece.color, true).len()
            &&& (piece.ptype == PAWN || piece.ptype == KING) ==> r == 0
        },
{
    proof {
        if PAWN <= piece.ptype <= KING {
            crate::field_laws::lemma_mobility_counts_targets(board@, *piece);
        }
    }
    let (x, y) = (piece.x, piece.y);
    let color = piece.color;
    if piece.ptype == KNIGHT {
        let mut count: i32 = 0;
        let mut k: usize = 0;
        while k < 8
            invariant
                board@.ids_ok(),
                k <= 8,
                on_board(x as int, y as int),
                count == knight_free_count(board@, x as int, y as int, color, k as int),
                0 <= count <= k,
            decreases 8 - k,
        {
            let (dx, dy) = knight_offset(k);
            let (nx, ny) = (x + dx, y + dy);
            if in_bounds(nx, ny) {
                let target = board.board[ny as usize][nx as usize];
                assert(target == board@.sq(nx as int, ny as int));
                if target == 0 || board.pieces[(target - 1) as usize].color != color {
                    count += 1;
                }
            }
            k += 1;
        }
        count
    } else if piece.ptype == crate::constants::BISHOP || piece.ptype == crate::constants::ROOK
        || piece.ptype == crate::constants::QUEEN {
        let squares = piece_targets_any(board, piece);
        assert(squares@.len() <= 64) by {
            lemma_slider_seq_len(board@, x as int, y as int, color, piece.ptype, slider_dir_count(piece.ptype));
        }
        squares.len() as i32
    } else {
        0
    }
}

/// Ray squares of a slider including the first occupied square of each ray.
fn piece_targets_any(board: &Board, piece: &Piece) -> (r: Vec<(i32, i32)>)
    requires
        board@.ids_ok(),
        on_board(piece.x as int, piece.y as int),
    ensures
        r@ == board@.slider_seq(piece.x as int, piece.y as int, piece.color, piece.ptype, true,
            slider_dir_count(piece.ptype)),
{
    let dirs = slider_dirs(piece.ptype);
    proof {
        lemma_slider_dir_seq(piece.ptype);
    }
    let mut out: Vec<(i32, i32)> = Vec::new();
    let mut k: usize = 0;
    while k < dirs.len()
        invariant
            board@.ids_ok(),
            on_board(piece.x as int, piece.y as int),
            dirs@ == slider_dir_seq(piece.ptype),
            dirs@.len() == slider_dir_count(piece.ptype),
            forall|j: int| 0 <= j < slider_dir_count(piece.ptype)
                ==> #[trigger] slider_dir_seq(piece.ptype)[j] == slider_dir(piece.ptype, j),
            k <= dirs.len(),
            out@ == board@.slider_seq(piece.x as int, piece.y as int, piece.color, piece.ptype, true, k as int),
        decreases dirs.len() - k,
    {
        let d = dirs[k];
        assert(d == slider_dir(piece.ptype, k as int));
        assert(unit_dir(d) && (d.0 != 0 || d.1 != 0)) by {
            assert(0 <= k < 8);
        }
        push_ray(board, piece.x, piece.y, d, piece.color, true, &mut out);
        k += 1;
    }
    out
}

proof fn lemma_ray_seq_len(b: BoardModel, x: int, y: int, d: (i32, i32), c: i32, any: bool, n: int)
    requires
        n >= 1,
    ensures
        b.ray_seq(x, y, d, c, any, n).len() <= 9 - n || b.ray_seq(x, y, d, c, any, n).len() == 0,
        b.ray_seq(x, y, d, c, any, n).len() <= 8,
    decreases 9 - n,
{
    if n < 9 {
        lemma_ray_seq_len(b, x, y, d, c, any, n + 1);
    }
}

proof fn lemma_slider_seq_len(b: BoardModel, x: int, y: int, c: i32, t: u8, k: int)
    requires
        0 <= k <= 8,
    ensures
        b.slider_seq(x, y, c, t, true, k).len() <= 8 * k,
    decreases k,
{
    if k > 0 {
        lemma_slider_seq_len(b, x, y, c, t, k - 1);
        lemma_ray_seq_len(b, x, y, slider_dir(t, k - 1), c, true, 1);
    }
}

/// Number of living cells among the first `k` king-step neighbours of (x, y).
pub open spec fn live_neighbors(g: Seq<Seq<bool>>, x: int, y: int, k: int) -> int
    decreases k,
{
    if k <= 0 {
        0
    } else {
        let (dx, dy) = jump_off(KING, k - 1);
        let nx = x + dx;
        let ny = y + dy;
        live_neighbors(g, x, y, k - 1) + if on_board(nx, ny) && g[ny][nx] { 1int } else { 0int }
    }
}

/// One generation of the cellular automaton on the 8x8 board: a living
/// cell survives with exactly two living neighbours, and any cell with
/// exactly three living neighbours is alive next.
pub open spec fn life_next(g: Seq<Seq<bool>>, x: int, y: int) -> bool {
    let n = live_neighbors(g, x, y, 8);
    (g[y][x] && n == 2) || n == 3
}

/// The grid of a boolean board as nested sequences.
pub open spec fn bool_grid(g: [[bool; 8]; 8]) -> Seq<Seq<bool>> {
    Seq::new(8, |y: int| g@[y]@)
}

/// 1 when (a, b) is a living cell of the board, 0 otherwise.
pub open spec fn cell(g: Seq<Seq<bool>>, a: int, b: int) -> int {
    if on_board(a, b) && g[b][a] { 1 } else { 0 }
}

/// Living cells in the 3x3 block centred on (x, y), the centre left out.
pub open spec fn moore_count(g: Seq<Seq<bool>>, x: int, y: int) -> int {
    cell(g, x - 1, y - 1) + cell(g, x, y - 1) + cell(g, x + 1, y - 1)
        + cell(g, x - 1, y) + cell(g, x + 1, y)
        + cell(g, x - 1, y + 1) + cell(g, x, y + 1) + cell(g, x + 1, y + 1)
}

/// The rule of the automaton, B3/S23: a dead cell is born exactly when three
/// of the eight cells around it live; a living cell lives on exactly when
/// two or three of them do.
pub proof fn lemma_life_rule(g: Seq<Seq<bool>>, x: int, y: int)
    ensures
        !g[y][x] ==> (life_next(g, x, y) <==> moore_count(g, x, y) == 3),
        g[y][x] ==> (life_next(g, x, y) <==> (moore_count(g, x, y) == 2 || moore_count(g, x, y) == 3)),
{
    reveal_with_fuel(live_neighbors, 9);
    assert(live_neighbors(g, x, y, 8) == moore_count(g, x, y));
}

/// One generation of the cellular automaton (see `life_next`), indexed [y][x].
pub fn life_step(grid: &[[bool; 8]; 8]) -> (r: [[bool; 8]; 8])
    ensures
        forall|x: int, y: int| on_board(x, y) ==> #[trigger] r@[y]@[x] == life_next(bool_grid(*grid), x, y),
        forall|x: int, y: int| on_board(x, y) ==> #[trigger] r@[y]@[x] == if grid@[y]@[x] {
            moore_count(bool_grid(*grid), x, y) == 2 || moore_count(bool_grid(*grid), x, y) == 3
        } else {
            moore_count(bool_grid(*grid), x, y) == 3
        },
{
    let ghost g = bool_grid(*grid);
    let mut next = [[false; 8]; 8];
    let mut y: i32 = 0;
    while y < 8
        invariant
            0 <= y <= 8,
            g == bool_grid(*grid),
            forall|x2: int, y2: int| on_board(x2, y2) && y2 < y ==> #[trigger] next@[y2]@[x2] == life_next(g, x2, y2),
        decreases 8 - y,
    {
        let mut x: i32 = 0;
        while x < 8
            invariant
                0 <= y < 8,
                0 <= x <= 8,
                g == bool_grid(*grid),
                forall|x2: int, y2: int| on_board(x2, y2) && (y2 < y || (y2 == y && x2 < x))
                    ==> #[trigger] next@[y2]@[x2] == life_next(g, x2, y2),
            decreases 8 - x,
        {
            let mut c: i32 = 0;
            let mut k: usize = 0;
            while k < 8
                invariant
                    0 <= y < 8,
                    0 <= x < 8,
                    k <= 8,
                    g == bool_grid(*grid),
                    c == live_neighbors(g, x as int, y as int, k as int),
                    0 <= c <= k,
                decreases 8 - k,
            {
                let (dx, dy) = king_offset(k);
                let (nx, ny) = (x + dx, y + dy);
                if in_bounds(nx, ny) && grid[ny as usize][nx as usize] {
                    c += 1;
                }
                k += 1;
            }
            let alive = grid[y as usize][x as usize];
            let ghost before = next;
            next[y as usize][x as usize] = (alive && c == 2) || c == 3;
            proof {
                assert forall|x2: int, y2: int| on_board(x2, y2) && (y2 < y || (y2 == y && x2 < x + 1))
                    implies #[trigger] next@[y2]@[x2] == life_next(g, x2, y2) by {
                    if !(x2 == x && y2 == y) {
                        assert(next@[y2]@[x2] == before@[y2]@[x2]);
                    }
                }
            }
            x += 1;
        }
        y += 1;
    }
    proof {
        assert forall|x: int, y: int| on_board(x, y) implies #[trigger] next@[y]@[x] == if grid@[y]@[x] {
            moore_count(bool_grid(*grid), x, y) == 2 || moore_count(bool_grid(*grid), x, y) == 3
        } else {
            moore_count(bool_grid(*grid), x, y) == 3
        } by {
            lemma_life_rule(g, x, y);
        }
    }
    next
}

/// Square `e` holds a piece of colour `c`.
pub open spec fn own_square(b: BoardModel, c: i32, e: (i32, i32)) -> bool {
    on_board(e.0 as int, e.1 as int) && b.sq(e.0 as int, e.1 as int) != 0 && b.at(e.0 as int, e.1 as int).color == c
}

/// A ray stopped only by enemies is the ray stopped by any blocker, minus a
/// last square held by a piece of colour `c`; every square of the ray is on
/// the board.
proof fn lemma_ray_any_blocker(b: BoardModel, x: int, y: int, d: (i32, i32), c: i32, n: int)
    ensures
        ({
            let t = b.ray_seq(x, y, d, c, true, n);
            let f = b.ray_seq(x, y, d, c, false, n);
            f == t || (t.len() > 0 && f == t.drop_last() && own_square(b, c, t.last()))
        }),
        forall|i: int| 0 <= i < b.ray_seq(x, y, d, c, true, n).len()
            ==> on_board(#[trigger] b.ray_seq(x, y, d, c, true, n)[i].0 as int, b.ray_seq(x, y, d, c, true, n)[i].1 as int),
    decreases 9 - n,
{
    if n < 9 {
        lemma_ray_any_blocker(b, x, y, d, c, n + 1);
        let px = shift(x, d.0 as int, n);
        let py = shift(y, d.1 as int, n);
        let t = b.ray_seq(x, y, d, c, true, n);
        let f = b.ray_seq(x, y, d, c, false, n);
        if on_board(px, py) && b.sq(px, py) == 0 {
            let t2 = b.ray_seq(x, y, d, c, true, n + 1);
            let f2 = b.ray_seq(x, y, d, c, false, n + 1);
            let head: Seq<(i32, i32)> = seq![(px as i32, py as i32)];
            assert(t == head + t2);
            assert(f == head + f2);
            if f2 != t2 {
                assert(f =~= t.drop_last());
                assert(t.last() == t2.last());
            }
            assert forall|i: int| 0 <= i < t.len() implies on_board(#[trigger] t[i].0 as int, t[i].1 as int) by {
                if i > 0 {
                    assert(t[i] == t2[i - 1]);
                }
            }
        }
    }
}

/// The targets of the first `k` rays stopped only by enemies are among those
/// stopped by any blocker; the extra squares hold pieces of colour `c`; all
/// are on the board.
proof fn lemma_slider_any_blocker(b: BoardModel, x: int, y: int, c: i32, t: u8, k: int)
    ensures
        forall|e: (i32, i32)| #[trigger] b.slider_seq(x, y, c, t, false, k).contains(e)
            ==> b.slider_seq(x, y, c, t, true, k).contains(e),
        forall|e: (i32, i32)| #[trigger] b.slider_seq(x, y, c, t, true, k).contains(e)
            ==> on_board(e.0 as int, e.1 as int)
                && (!b.slider_seq(x, y, c, t, false, k).contains(e) ==> own_square(b, c, e)),
    decreases k,
{
    if k > 0 {
        lemma_slider_any_blocker(b, x, y, c, t, k - 1);
        let d = slider_dir(t, k - 1);
        lemma_ray_any_blocker(b, x, y, d, c, 1);
        let tp = b.slider_seq(x, y, c, t, true, k - 1);
        let fp = b.slider_seq(x, y, c, t, false, k - 1);
        let tr = b.ray_seq(x, y, d, c, true, 1);
        let fr = b.ray_seq(x, y, d, c, false, 1);
        lemma_add_contains(tp, tr);
        lemma_add_contains(fp, fr);
        assert forall|e: (i32, i32)| fr.contains(e) implies tr.contains(e) by {
            if fr != tr {
                let i = choose|i: int| 0 <= i < fr.len() && fr[i] == e;
                assert(tr[i] == e);
            }
        }
        assert forall|e: (i32, i32)| tr.contains(e) implies on_board(e.0 as int, e.1 as int)
            && (!fr.contains(e) ==> own_square(b, c, e)) by {
            let i = choose|i: int| 0 <= i < tr.len() && tr[i] == e;
            assert(on_board(tr[i].0 as int, tr[i].1 as int));
            if !fr.contains(e) && fr != tr {
                if i < tr.len() - 1 {
                    assert(fr[i] == e);
                }
            }
        }
    }
}

/// Jump targets are squares of the board.
proof fn lemma_jump_seq_on_board(x: int, y: int, kind: u8, k: int)
    ensures
        forall|e: (i32, i32)| #[trigger] jump_seq(x, y, kind, k).contains(e) ==> on_board(e.0 as int, e.1 as int),
    decreases k,
{
    if k > 0 {
        lemma_jump_seq_on_board(x, y, kind, k - 1);
        let prev = jump_seq(x, y, kind, k - 1);
        assert forall|e: (i32, i32)| #[trigger] jump_seq(x, y, kind, k).contains(e) implies on_board(e.0 as int, e.1 as int) by {
            let s = jump_seq(x, y, kind, k);
            let i = choose|i: int| 0 <= i < s.len() && s[i] == e;
            if i < prev.len() {
                assert(prev[i] == e);
            }
        }
    }
}

/// The trace targets of a piece (`piece_targets` with the forward flag off)
/// are among its future targets (flag on); every target is a square of the
/// board; a future target that is no trace target is the pawn's push square
/// or, for a sliding piece, the first blocker of a ray holding a piece of
/// colour `c`.
pub proof fn lemma_trace_targets_within_future(b: BoardModel, p: Piece, c: i32)
    requires
        on_board(p.x as int, p.y as int),
    ensures
        forall|e: (i32, i32)| #[trigger] b.target_seq(p, c, false).contains(e) ==> b.target_seq(p, c, true).contains(e),
        forall|e: (i32, i32)| #[trigger] b.target_seq(p, c, true).contains(e) ==> on_board(e.0 as int, e.1 as int),
        forall|e: (i32, i32)| #[trigger] b.target_seq(p, c, true).contains(e) && !b.target_seq(p, c, false).contains(e)
            ==> (p.ptype == PAWN && e == (p.x, (p.y + pawn_dir(c)) as i32))
                || (p.ptype != PAWN && p.ptype != KNIGHT && p.ptype != KING && own_square(b, c, e)),
{
    let (x, y) = (p.x as int, p.y as int);
    let tt = b.target_seq(p, c, true);
    let tf = b.target_seq(p, c, false);
    if p.ptype == PAWN {
        let ty = y + pawn_dir(c);
        let push: Seq<(i32, i32)> = if on_board(x, ty) { seq![(x as i32, ty as i32)] } else { Seq::empty() };
        let left: Seq<(i32, i32)> = if on_board(x - 1, ty) { seq![((x - 1) as i32, ty as i32)] } else { Seq::empty() };
        let right: Seq<(i32, i32)> = if on_board(x + 1, ty) { seq![((x + 1) as i32, ty as i32)] } else { Seq::empty() };
        assert(tt == push + left + right);
        assert(tf =~= Seq::<(i32, i32)>::empty() + left + right);
        lemma_add_contains(push, left);
        lemma_add_contains(push + left, right);
        lemma_add_contains(Seq::<(i32, i32)>::empty(), left);
        lemma_add_contains(Seq::<(i32, i32)>::empty() + left, right);
        assert forall|e: (i32, i32)| #[trigger] push.contains(e) implies e == (p.x, (p.y + pawn_dir(c)) as i32)
            && on_board(e.0 as int, e.1 as int) by {
            assert(push[0] == e);
        }
        assert forall|e: (i32, i32)| #[trigger] left.contains(e) implies on_board(e.0 as int, e.1 as int) by {
            assert(left[0] == e);
        }
        assert forall|e: (i32, i32)| #[trigger] right.contains(e) implies on_board(e.0 as int, e.1 as int) by {
            assert(right[0] == e);
        }
    } else if p.ptype == KNIGHT || p.ptype == KING {
        lemma_jump_seq_on_board(x, y, p.ptype, 8);
    } else {
        lemma_slider_any_blocker(b, x, y, c, p.ptype, slider_dir_count(p.ptype));
    }
}

/// Target squares of a sequence of moves.
pub open spec fn move_targets(ms: Seq<Move>) -> Seq<(i32, i32)> {
    ms.map_values(|m: Move| (m.tx, m.ty))
}

impl BoardModel {
    /// Squares a pawn of colour `c` on (x, y) can go to in one plain step:
    /// the push square when empty, then each diagonal holding an enemy.
    pub open spec fn pawn_reach_seq(self, x: int, y: int, c: i32) -> Seq<(i32, i32)> {
        let ty = y + pawn_dir(c);
        let push: Seq<(i32, i32)> = if on_board(x, ty) && self.sq(x, ty) == 0 {
            seq![(x as i32, ty as i32)]
        } else {
            Seq::empty()
        };
        let left: Seq<(i32, i32)> = if on_board(x - 1, ty) && self.sq(x - 1, ty) != 0 && self.at(x - 1, ty).color != c {
            seq![((x - 1) as i32, ty as i32)]
        } else {
            Seq::empty()
        };
        let right: Seq<(i32, i32)> = if on_board(x + 1, ty) && self.sq(x + 1, ty) != 0 && self.at(x + 1, ty).color != c {
            seq![((x + 1) as i32, ty as i32)]
        } else {
            Seq::empty()
        };
        push + left + right
    }

    /// Squares a piece reaches with its plain moves, in generation order:
    /// for a pawn its push and captures (no double step, en passant or
    /// promotion choice), for a knight or king its jumps onto empty or enemy
    /// squares (no castling), for a sliding piece its rays up to an enemy.
    pub open spec fn reach_seq(self, p: Piece, c: i32) -> Seq<(i32, i32)> {
        if p.ptype == PAWN {
            self.pawn_reach_seq(p.x as int, p.y as int, c)
        } else if p.ptype == KNIGHT || p.ptype == KING {
            move_targets(self.jump_seq_upto(p.x, p.y, c, p.ptype, 8))
        } else {
            move_targets(self.slide_seq_upto(p.x, p.y, c, p.ptype, slider_dir_count(p.ptype)))
        }
    }
}

/// Target squares of moves, in order.
fn targets_of(ms: &Vec<Move>) -> (r: Vec<(i32, i32)>)
    ensures
        r@ == move_targets(ms@),
{
    let mut r: Vec<(i32, i32)> = Vec::new();
    let mut i: usize = 0;
    while i < ms.len()
        invariant
            i <= ms.len(),
            r@ == move_targets(ms@.take(i as int)),
        decreases ms.len() - i,
    {
        let m = ms[i];
        r.push((m.tx, m.ty));
        assert(ms@.take(i + 1) == ms@.take(i as int).push(m));
        assert(move_targets(ms@.take(i + 1)) =~= move_targets(ms@.take(i as int)).push((m.tx, m.ty)));
        i += 1;
    }
    assert(ms@.take(ms@.len() as int) =~= ms@);
    r
}

/// Squares a piece reaches with its plain moves (see `BoardModel::reach_seq`).
pub fn reach_squares(board: &Board, piece: &Piece, color: i32) -> (r: Vec<(i32, i32)>)
    requires
        board@.indices_ok(),
        on_board(piece.x as int, piece.y as int),
    ensures
        r@ == board@.reach_seq(*piece, color),
        PAWN <= piece.ptype <= KING ==> forall|e: (i32, i32)| #[trigger] r@.contains(e)
            <==> crate::field_laws::reach_geometry(board@, *piece, color, e),
{
    let r = reach_list(board, piece, color);
    proof {
        if PAWN <= piece.ptype <= KING {
            assert forall|e: (i32, i32)| #[trigger] r@.contains(e)
                <==> crate::field_laws::reach_geometry(board@, *piece, color, e) by {
                crate::field_laws::lemma_reach_squares(board@, *piece, color, e);
            }
        }
    }
    r
}

/// The reach list of `reach_squares`, built move by move.
fn reach_list(board: &Board, piece: &Piece, color: i32) -> (r: Vec<(i32, i32)>)
    requires
        board@.indices_ok(),
        on_board(piece.x as int, piece.y as int),
    ensures
        r@ == board@.reach_seq(*piece, color),
{
    let (x, y) = (piece.x, piece.y);
    if piece.ptype == PAWN {
        let diry: i32 = if color == WHITE { 1 } else { -1 };
        let ty = y + diry;
        let mut out: Vec<(i32, i32)> = Vec::new();
        if in_bounds(x, ty) && board.board[ty as usize][x as usize] == 0 {
            out.push((x, ty));
        }
        if in_bounds(x - 1, ty) {
            let target = board.board[ty as usize][(x - 1) as usize];
            assert(target == board@.sq(x - 1, ty as int));
            if target != 0 && board.pieces[(target - 1) as usize].color != color {
                out.push((x - 1, ty));
            }
        }
        if in_bounds(x + 1, ty) {
            let target = board.board[ty as usize][(x + 1) as usize];
            assert(target == board@.sq(x + 1, ty as int));
            if target != 0 && board.pieces[(target - 1) as usize].color != color {
                out.push((x + 1, ty));
            }
        }
        assert(out@ =~= board@.pawn_reach_seq(x as int, y as int, color));
        out
    } else if piece.ptype == KNIGHT || piece.ptype == KING {
        let ms = board.jump_moves(x, y, color, piece.ptype);
        targets_of(&ms)
    } else {
        let mut ms: Vec<Move> = Vec::new();
        board.slide_moves(x, y, color, piece.ptype, &mut ms);
        assert(ms@ =~= board@.slide_seq_upto(x, y, color, piece.ptype, slider_dir_count(piece.ptype)));
        targets_of(&ms)
    }
}

impl BoardModel {
    /// Empty squares ahead of a pawn on (x, y) moving along `dir`, from step
    /// `k` up to step `dist`, stopping at the first occupied square or the
    /// board's edge.
    pub open spec fn run_squares(self, x: int, y: int, dir: int, k: int, dist: int) -> Seq<(i32, i32)>
        decreases dist - k + 1,
    {
        if k > dist || k < 1 {
            Seq::empty()
        } else {
            let ny = shift(y, dir, k);
            if !on_board(x, ny) || self.sq(x, ny) != 0 {
                Seq::empty()
            } else {
                seq![(x as i32, ny as i32)] + self.run_squares(x, y, dir, k + 1, dist)
            }
        }
    }

    /// No occupied square lies ahead of the pawn from step `k` up to step
    /// `dist` before the board's edge.
    pub open spec fn run_clear(self, x: int, y: int, dir: int, k: int, dist: int) -> bool
        decreases dist - k + 1,
    {
        if k > dist || k < 1 {
            true
        } else {
            let ny = shift(y, dir, k);
            if !on_board(x, ny) {
                true
            } else if self.sq(x, ny) != 0 {
                false
            } else {
                self.run_clear(x, y, dir, k + 1, dist)
            }
        }
    }

    /// Steps left for a pawn of colour `c` on rank `y` to its last rank.
    pub open spec fn steps_to_promote(y: int, c: i32) -> int {
        if c == WHITE { 7 - y } else { y }
    }

    /// A living enemy pawn stands ahead of a pawn of colour `c` on (x, y), on its file.
    pub open spec fn enemy_pawn_ahead(self, x: int, y: int, c: i32) -> bool {
        let enemy = if c == WHITE { BLACK } else { WHITE };
        exists|ny: int| #![trigger self.sq(x, ny)]
            0 <= ny < 8 && (if c == WHITE { ny > y } else { ny < y })
            && self.sq(x, ny) != 0 && self.at(x, ny).alive && self.at(x, ny).color == enemy
            && self.at(x, ny).ptype == PAWN
    }
}

/// The empty squares ahead of a pawn on its way to its last rank, up to the
/// first occupied one, and whether its way is clear.
pub fn pawn_run(board: &Board, piece: &Piece) -> (r: (Vec<(i32, i32)>, bool))
    requires
        on_board(piece.x as int, piece.y as int),
    ensures
        ({
            let (x, y) = (piece.x as int, piece.y as int);
            let dist = BoardModel::steps_to_promote(y, piece.color);
            &&& r.0@ == board@.run_squares(x, y, pawn_dir(piece.color), 1, dist)
            &&& r.1 == board@.run_clear(x, y, pawn_dir(piece.color), 1, dist)
        }),
        ({
            let (x, y) = (piece.x as int, piece.y as int);
            let dir = pawn_dir(piece.color);
            let dist = BoardModel::steps_to_promote(y, piece.color);
            &&& forall|i: int| 0 <= i < r.0@.len() ==> #[trigger] r.0@[i] == (piece.x, shift(y, dir, i + 1) as i32)
                    && board@.sq(x, shift(y, dir, i + 1)) == 0
            &&& r.1 <==> (forall|j: int| 1 <= j <= dist ==> #[trigger] board@.sq(x, shift(y, dir, j)) == 0)
            &&& r.1 ==> r.0@.len() == dist
            &&& !r.1 ==> r.0@.len() < dist && board@.sq(x, shift(y, dir, r.0@.len() as int + 1)) != 0
        }),
{
    proof {
        crate::field_laws::lemma_pawn_run(board@, piece.x as int, piece.y as int, piece.color);
    }
    run_ahead(board, piece)
}

/// The run and the clear flag of `pawn_run`, square by square.
fn run_ahead(board: &Board, piece: &Piece) -> (r: (Vec<(i32, i32)>, bool))
    requires
        on_board(piece.x as int, piece.y as int),
    ensures
        ({
            let (x, y) = (piece.x as int, piece.y as int);
            let dist = BoardModel::steps_to_promote(y, piece.color);
            &&& r.0@ == board@.run_squares(x, y, pawn_dir(piece.color), 1, dist)
            &&& r.1 == board@.run_clear(x, y, pawn_dir(piece.color), 1, dist)
        }),
{
    let ghost bm = board@;
    let (x, y) = (piece.x, piece.y);
    let dist: i32 = if piece.color == WHITE { 7 - y } else { y };
    let ghost gd = pawn_dir(piece.color);
    let ghost gdist = BoardModel::steps_to_promote(y as int, piece.color);
    let mut squares: Vec<(i32, i32)> = Vec::new();
    let mut step: i32 = 1;
    while step <= dist
        invariant
            on_board(x as int, y as int),
            x == piece.x && y == piece.y,
            gd == pawn_dir(piece.color),
            gdist == BoardModel::steps_to_promote(y as int, piece.color),
            dist as int == gdist,
            0 <= dist <= 7,
            1 <= step <= dist + 1,
            squares@ + bm.run_squares(x as int, y as int, gd, step as int, gdist)
                == bm.run_squares(x as int, y as int, gd, 1, gdist),
            bm.run_clear(x as int, y as int, gd, step as int, gdist) == bm.run_clear(x as int, y as int, gd, 1, gdist),
            board@ == bm,
        decreases dist - step + 1,
    {
        let ny = if piece.color == WHITE { y + step } else { y - step };
        assert(ny as int == shift(y as int, gd, step as int));
        if !in_bounds(x, ny) {
            assert(bm.run_squares(x as int, y as int, gd, step as int, gdist) =~= Seq::<(i32, i32)>::empty());
            assert(squares@ =~= bm.run_squares(x as int, y as int, gd, 1, gdist));
            return (squares, true);
        }
        if board.board[ny as usize][x as usize] != 0 {
            assert(board.board[ny as int][x as int] == bm.sq(x as int, ny as int));
            assert(bm.run_squares(x as int, y as int, gd, step as int, gdist) =~= Seq::<(i32, i32)>::empty());
            assert(squares@ =~= bm.run_squares(x as int, y as int, gd, 1, gdist));
            return (squares, false);
        }
        assert(board.board[ny as int][x as int] == bm.sq(x as int, ny as int));
        let ghost before = squares@;
        squares.push((x, ny));
        assert(squares@ + bm.run_squares(x as int, y as int, gd, step + 1, gdist)
            =~= before + bm.run_squares(x as int, y as int, gd, step as int, gdist));
        step += 1;
    }
    assert(bm.run_squares(x as int, y as int, gd, step as int, gdist) =~= Seq::<(i32, i32)>::empty());
    assert(squares@ =~= bm.run_squares(x as int, y as int, gd, 1, gdist));
    (squares, true)
}

/// A pawn is passed when no living enemy pawn stands ahead of it on its file.
pub fn is_passed(board: &Board, piece: &Piece) -> (r: bool)
    requires
        board@.ids_ok(),
        on_board(piece.x as int, piece.y as int),
    ensures
        r == !board@.enemy_pawn_ahead(piece.x as int, piece.y as int, piece.color),
        r <==> forall|ny: int| #![trigger board@.sq(piece.x as int, ny)]
            0 <= ny < 8 && (if piece.color == WHITE { ny > piece.y } else { ny < piece.y })
            && board@.sq(piece.x as int, ny) != 0 && board@.at(piece.x as int, ny).alive
            && board@.at(piece.x as int, ny).ptype == PAWN
            ==> board@.at(piece.x as int, ny).color != (if piece.color == WHITE { BLACK } else { WHITE }),
{
    let ghost bm = board@;
    let (x, y) = (piece.x, piece.y);
    let white = piece.color == WHITE;
    let enemy: i32 = if white { BLACK } else { WHITE };
    let mut k: i32 = 1;
    while k < 8
        invariant
            board@ == bm,
            bm.ids_ok(),
            on_board(x as int, y as int),
            x == piece.x && y == piece.y,
            1 <= k <= 8,
            enemy == (if piece.color == WHITE { BLACK } else { WHITE }),
            white == (piece.color == WHITE),
            forall|ny: int| 0 <= ny < 8 && (if white { y < ny < y + k } else { y - k < ny < y })
                ==> !(#[trigger] bm.sq(x as int, ny) != 0 && bm.at(x as int, ny).alive
                    && bm.at(x as int, ny).color == enemy && bm.at(x as int, ny).ptype == PAWN),
        decreases 8 - k,
    {
        let ny = if white { y + k } else { y - k };
        if 0 <= ny && ny < 8 {
            let target = board.board[ny as usize][x as usize];
            assert(target == bm.sq(x as int, ny as int));
            if target != 0 {
                let tp = &board.pieces[(target - 1) as usize];
                if tp.alive && tp.color == enemy && tp.ptype == PAWN {
                    assert(bm.sq(x as int, ny as int) != 0);
                    assert(bm.at(x as int, ny as int) == *tp);
                    assert(bm.enemy_pawn_ahead(x as int, y as int, piece.color));
                    return false;
                }
            }
        }
        k += 1;
    }
    proof {
        if bm.enemy_pawn_ahead(x as int, y as int, piece.color) {
            let ny = choose|ny: int| #![trigger bm.sq(x as int, ny)]
                0 <= ny < 8 && (if piece.color == WHITE { ny > y } else { ny < y })
                && bm.sq(x as int, ny) != 0 && bm.at(x as int, ny).alive && bm.at(x as int, ny).color == enemy
                && bm.at(x as int, ny).ptype == PAWN;
            assert(false);
        }
    }
    true
}

} // verus!
