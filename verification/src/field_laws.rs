//! Laws of the flow-field geometry stated in plain board terms: which
//! squares a piece's target list holds.

use vstd::prelude::*;
use crate::constants::{on_board, slider_dir, slider_dir_count, PAWN, KNIGHT, BISHOP, ROOK, QUEEN, KING};
use crate::board::{BoardModel, Move, Piece, shift, jump_off, pawn_dir};
use crate::fields::{jump_seq, pawn_target_seq, move_targets};
use crate::move_laws::{abs_of, unit_of, knight_jump, king_step, slides_along, clear_between};
use crate::seq_facts::lemma_add_contains;

verus! {

/// `e` is the square `n` steps from (x, y) along `d` (counting from step
/// `n0`): on the board, every earlier step of the way on an empty square of
/// the board, and itself empty, or occupied by an enemy, or occupied at all
/// when `any_blocker` is set.
pub open spec fn ray_hit(
    b: BoardModel, x: int, y: int, d: (i32, i32), c: i32, any_blocker: bool, n0: int, n: int, e: (i32, i32),
) -> bool {
    let (ex, ey) = (shift(x, d.0 as int, n), shift(y, d.1 as int, n));
    &&& n0 <= n < 9
    &&& on_board(ex, ey)
    &&& e == (ex as i32, ey as i32)
    &&& forall|j: int| n0 <= j < n ==> {
            &&& on_board(#[trigger] shift(x, d.0 as int, j), shift(y, d.1 as int, j))
            &&& b.sq(shift(x, d.0 as int, j), shift(y, d.1 as int, j)) == 0
        }
    &&& (b.sq(ex, ey) == 0 || any_blocker || b.at(ex, ey).color != c)
}

proof fn lemma_ray_members(b: BoardModel, x: int, y: int, d: (i32, i32), c: i32, any_blocker: bool, n0: int, e: (i32, i32))
    requires
        1 <= n0,
    ensures
        b.ray_seq(x, y, d, c, any_blocker, n0).contains(e)
            <==> exists|n: int| #[trigger] ray_hit(b, x, y, d, c, any_blocker, n0, n, e),
    decreases 9 - n0,
{
    let s = b.ray_seq(x, y, d, c, any_blocker, n0);
    let px = shift(x, d.0 as int, n0);
    let py = shift(y, d.1 as int, n0);
    if n0 >= 9 {
        assert(s.len() == 0);
        if exists|n: int| #[trigger] ray_hit(b, x, y, d, c, any_blocker, n0, n, e) {
            let n = choose|n: int| #[trigger] ray_hit(b, x, y, d, c, any_blocker, n0, n, e);
        }
    } else if !on_board(px, py) {
        assert(s.len() == 0);
        if exists|n: int| #[trigger] ray_hit(b, x, y, d, c, any_blocker, n0, n, e) {
            let n = choose|n: int| #[trigger] ray_hit(b, x, y, d, c, any_blocker, n0, n, e);
            if n > n0 {
                assert(on_board(shift(x, d.0 as int, n0), shift(y, d.1 as int, n0)));
            }
        }
    } else if b.sq(px, py) != 0 {
        if exists|n: int| #[trigger] ray_hit(b, x, y, d, c, any_blocker, n0, n, e) {
            let n = choose|n: int| #[trigger] ray_hit(b, x, y, d, c, any_blocker, n0, n, e);
            if n > n0 {
                assert(b.sq(shift(x, d.0 as int, n0), shift(y, d.1 as int, n0)) == 0);
            }
            assert(n == n0);
            assert(s[0] == e);
        }
        if s.contains(e) {
            assert(s[0] == e);
            assert(ray_hit(b, x, y, d, c, any_blocker, n0, n0, e));
        }
    } else {
        lemma_ray_members(b, x, y, d, c, any_blocker, n0 + 1, e);
        let head: Seq<(i32, i32)> = seq![(px as i32, py as i32)];
        let rest = b.ray_seq(x, y, d, c, any_blocker, n0 + 1);
        assert(s == head + rest);
        lemma_add_contains(head, rest);
        if head.contains(e) {
            assert(head[0] == e);
            assert(ray_hit(b, x, y, d, c, any_blocker, n0, n0, e));
        }
        if rest.contains(e) {
            let n = choose|n: int| #[trigger] ray_hit(b, x, y, d, c, any_blocker, n0 + 1, n, e);
            assert(ray_hit(b, x, y, d, c, any_blocker, n0, n, e));
        }
        if exists|n: int| #[trigger] ray_hit(b, x, y, d, c, any_blocker, n0, n, e) {
            let n = choose|n: int| #[trigger] ray_hit(b, x, y, d, c, any_blocker, n0, n, e);
            if n == n0 {
                assert(head.contains(e)) by { assert(head[0] == e); }
            } else {
                assert(ray_hit(b, x, y, d, c, any_blocker, n0 + 1, n, e));
            }
        }
    }
}

proof fn lemma_slider_members(b: BoardModel, x: int, y: int, c: i32, t: u8, any_blocker: bool, k: int, e: (i32, i32))
    requires
        0 <= k,
    ensures
        b.slider_seq(x, y, c, t, any_blocker, k).contains(e)
            <==> exists|j: int, n: int| 0 <= j < k && #[trigger] ray_hit(b, x, y, slider_dir(t, j), c, any_blocker, 1, n, e),
    decreases k,
{
    if k > 0 {
        lemma_slider_members(b, x, y, c, t, any_blocker, k - 1, e);
        lemma_ray_members(b, x, y, slider_dir(t, k - 1), c, any_blocker, 1, e);
        let prev = b.slider_seq(x, y, c, t, any_blocker, k - 1);
        let ray = b.ray_seq(x, y, slider_dir(t, k - 1), c, any_blocker, 1);
        lemma_add_contains(prev, ray);
        if exists|j: int, n: int| 0 <= j < k && #[trigger] ray_hit(b, x, y, slider_dir(t, j), c, any_blocker, 1, n, e) {
            let (j, n) = choose|j: int, n: int| 0 <= j < k && #[trigger] ray_hit(b, x, y, slider_dir(t, j), c, any_blocker, 1, n, e);
            if j == k - 1 {
                assert(ray.contains(e));
            } else {
                assert(prev.contains(e));
            }
        }
    }
}

/// The target squares of a sliding piece of type `t` on (x, y) are the
/// squares of the board along its lines reached over empty squares, each
/// empty, or holding an enemy, or occupied at all when `any_blocker` is set.
proof fn lemma_slider_geometry(b: BoardModel, x: int, y: int, c: i32, t: u8, any_blocker: bool, e: (i32, i32))
    requires
        on_board(x, y),
        t == BISHOP || t == ROOK || t == QUEEN,
    ensures
        b.slider_seq(x, y, c, t, any_blocker, slider_dir_count(t)).contains(e) <==> {
            let (ex, ey) = (e.0 as int, e.1 as int);
            &&& on_board(ex, ey)
            &&& slides_along(t, ex - x, ey - y)
            &&& clear_between(b, x, y, ex, ey)
            &&& (b.sq(ex, ey) == 0 || any_blocker || b.at(ex, ey).color != c)
        },
{
    lemma_slider_members(b, x, y, c, t, any_blocker, slider_dir_count(t), e);
    let (ex, ey) = (e.0 as int, e.1 as int);
    if exists|j: int, n: int| 0 <= j < slider_dir_count(t) && #[trigger] ray_hit(b, x, y, slider_dir(t, j), c, any_blocker, 1, n, e) {
        let (j, n) = choose|j: int, n: int| 0 <= j < slider_dir_count(t) && #[trigger] ray_hit(b, x, y, slider_dir(t, j), c, any_blocker, 1, n, e);
        let d = slider_dir(t, j);
        assert(d.0 == -1 || d.0 == 0 || d.0 == 1);
        assert(d.1 == -1 || d.1 == 0 || d.1 == 1);
        assert(!(d.0 == 0 && d.1 == 0));
        assert(t == BISHOP ==> d.0 != 0 && d.1 != 0);
        assert(t == ROOK ==> d.0 == 0 || d.1 == 0);
        assert(unit_of(ex - x) == d.0 as int);
        assert(unit_of(ey - y) == d.1 as int);
        let nn = if abs_of(ex - x) >= abs_of(ey - y) { abs_of(ex - x) } else { abs_of(ey - y) };
        assert(nn == n);
        assert forall|k: int| 1 <= k < nn implies #[trigger] b.sq(shift(x, unit_of(ex - x), k), shift(y, unit_of(ey - y), k)) == 0 by {
            assert(on_board(shift(x, d.0 as int, k), shift(y, d.1 as int, k)));
        }
    }
    if on_board(ex, ey) && slides_along(t, ex - x, ey - y) && clear_between(b, x, y, ex, ey)
        && (b.sq(ex, ey) == 0 || any_blocker || b.at(ex, ey).color != c) {
        let d: (i32, i32) = (unit_of(ex - x) as i32, unit_of(ey - y) as i32);
        let k: int = if t == BISHOP {
            if d == (1i32, 1i32) { 0 } else if d == (1i32, -1i32) { 1 } else if d == (-1i32, 1i32) { 2 } else { 3 }
        } else if t == ROOK {
            if d == (1i32, 0i32) { 0 } else if d == (-1i32, 0i32) { 1 } else if d == (0i32, 1i32) { 2 } else { 3 }
        } else {
            if d == (1i32, 1i32) { 0 } else if d == (1i32, -1i32) { 1 } else if d == (-1i32, 1i32) { 2 }
            else if d == (-1i32, -1i32) { 3 } else if d == (1i32, 0i32) { 4 } else if d == (-1i32, 0i32) { 5 }
            else if d == (0i32, 1i32) { 6 } else { 7 }
        };
        assert(slider_dir(t, k) == d);
        let n: int = if abs_of(ex - x) >= abs_of(ey - y) { abs_of(ex - x) } else { abs_of(ey - y) };
        assert(shift(x, d.0 as int, n) == ex && shift(y, d.1 as int, n) == ey);
        assert forall|j: int| 1 <= j < n implies {
            &&& on_board(#[trigger] shift(x, d.0 as int, j), shift(y, d.1 as int, j))
            &&& b.sq(shift(x, d.0 as int, j), shift(y, d.1 as int, j)) == 0
        } by {
            assert(b.sq(shift(x, unit_of(ex - x), j), shift(y, unit_of(ey - y), j)) == 0);
        }
        assert(ray_hit(b, x, y, d, c, any_blocker, 1, n, e));
    }
}

/// The jump targets among the first `k` offsets are the offset squares on the board.
proof fn lemma_jump_members(x: int, y: int, kind: u8, k: int, e: (i32, i32))
    requires
        0 <= k,
    ensures
        jump_seq(x, y, kind, k).contains(e) <==> exists|j: int| 0 <= j < k
            && on_board(x + (#[trigger] jump_off(kind, j)).0, y + jump_off(kind, j).1)
            && e == ((x + jump_off(kind, j).0) as i32, (y + jump_off(kind, j).1) as i32),
    decreases k,
{
    if k > 0 {
        lemma_jump_members(x, y, kind, k - 1, e);
        let prev = jump_seq(x, y, kind, k - 1);
        let s = jump_seq(x, y, kind, k);
        let off = jump_off(kind, k - 1);
        if on_board(x + off.0, y + off.1) {
            assert(s == prev.push(((x + off.0) as i32, (y + off.1) as i32)));
            crate::seq_facts::lemma_push_contains(prev, ((x + off.0) as i32, (y + off.1) as i32));
        }
    }
}

/// Target geometry of a piece of colour `c` on (x, y): a pawn covers the two
/// squares diagonally in front of it (and, when `forward` is set, the square
/// straight ahead); a knight its jumps and a king its steps; a bishop, rook
/// or queen the squares along its lines reached over empty squares, each
/// empty, holding an enemy, or (when `forward` is set) holding any piece.
/// Only squares of the board count.
pub open spec fn target_geometry(b: BoardModel, p: Piece, c: i32, forward: bool, e: (i32, i32)) -> bool {
    let (x, y) = (p.x as int, p.y as int);
    let (ex, ey) = (e.0 as int, e.1 as int);
    &&& on_board(ex, ey)
    &&& if p.ptype == PAWN {
            ey == y + pawn_dir(c) && (ex - x == 1 || x - ex == 1 || (forward && ex == x))
        } else if p.ptype == KNIGHT {
            knight_jump(ex - x, ey - y)
        } else if p.ptype == KING {
            king_step(ex - x, ey - y)
        } else {
            &&& slides_along(p.ptype, ex - x, ey - y)
            &&& clear_between(b, x, y, ex, ey)
            &&& (b.sq(ex, ey) == 0 || forward || b.at(ex, ey).color != c)
        }
}

/// A piece's target list holds exactly the squares its target geometry names.
pub proof fn lemma_target_squares(b: BoardModel, p: Piece, c: i32, forward: bool, e: (i32, i32))
    requires
        on_board(p.x as int, p.y as int),
        PAWN <= p.ptype <= KING,
    ensures
        b.target_seq(p, c, forward).contains(e) <==> target_geometry(b, p, c, forward, e),
{
    let (x, y) = (p.x as int, p.y as int);
    let (ex, ey) = (e.0 as int, e.1 as int);
    if p.ptype == PAWN {
        let ty = y + pawn_dir(c);
        let push: Seq<(i32, i32)> = if forward && on_board(x, ty) { seq![(x as i32, ty as i32)] } else { Seq::empty() };
        let left: Seq<(i32, i32)> = if on_board(x - 1, ty) { seq![((x - 1) as i32, ty as i32)] } else { Seq::empty() };
        let right: Seq<(i32, i32)> = if on_board(x + 1, ty) { seq![((x + 1) as i32, ty as i32)] } else { Seq::empty() };
        assert(pawn_target_seq(x, y, c, forward) == push + left + right);
        lemma_add_contains(push, left);
        lemma_add_contains(push + left, right);
        if push.contains(e) { assert(push[0] == e); }
        if left.contains(e) { assert(left[0] == e); }
        if right.contains(e) { assert(right[0] == e); }
        if target_geometry(b, p, c, forward, e) {
            if ex == x {
                assert(push[0] == e);
            } else if ex == x - 1 {
                assert(left[0] == e);
            } else {
                assert(right[0] == e);
            }
        }
    } else if p.ptype == KNIGHT || p.ptype == KING {
        lemma_jump_members(x, y, p.ptype, 8, e);
        let (dx, dy) = (ex - x, ey - y);
        if target_geometry(b, p, c, forward, e) {
            let k: int = if p.ptype == KNIGHT {
                if dx == 1 && dy == 2 { 0 } else if dx == 2 && dy == 1 { 1 } else if dx == -1 && dy == 2 { 2 }
                else if dx == -2 && dy == 1 { 3 } else if dx == 1 && dy == -2 { 4 } else if dx == 2 && dy == -1 { 5 }
                else if dx == -1 && dy == -2 { 6 } else { 7 }
            } else {
                if dx == 1 && dy == 1 { 0 } else if dx == 1 && dy == 0 { 1 } else if dx == 1 && dy == -1 { 2 }
                else if dx == 0 && dy == 1 { 3 } else if dx == 0 && dy == -1 { 4 } else if dx == -1 && dy == 1 { 5 }
                else if dx == -1 && dy == 0 { 6 } else { 7 }
            };
            assert(jump_off(p.ptype, k).0 == dx && jump_off(p.ptype, k).1 == dy);
        }
        if jump_seq(x, y, p.ptype, 8).contains(e) {
            let j = choose|j: int| 0 <= j < 8
                && on_board(x + (#[trigger] jump_off(p.ptype, j)).0, y + jump_off(p.ptype, j).1)
                && e == ((x + jump_off(p.ptype, j).0) as i32, (y + jump_off(p.ptype, j).1) as i32);
            assert(ex == x + jump_off(p.ptype, j).0 && ey == y + jump_off(p.ptype, j).1);
        }
    } else {
        lemma_slider_geometry(b, x, y, c, p.ptype, forward, e);
    }
}

/// The targets of the sliding moves along a ray are the ray's squares
/// stopped only by enemies.
proof fn lemma_ray_moves_targets(b: BoardModel, x: i32, y: i32, c: i32, d: (i32, i32), n: int)
    ensures
        move_targets(b.ray_seq_from(x, y, c, d, n)) == b.ray_seq(x as int, y as int, d, c, false, n),
    decreases 9 - n,
{
    if n < 9 {
        lemma_ray_moves_targets(b, x, y, c, d, n + 1);
        let tx = shift(x as int, d.0 as int, n);
        let ty = shift(y as int, d.1 as int, n);
        if on_board(tx, ty) && b.sq(tx, ty) == 0 {
            let head: Seq<Move> = seq![Move::plain(x, y, tx as i32, ty as i32)];
            let rest = b.ray_seq_from(x, y, c, d, n + 1);
            assert(move_targets(head + rest) =~= move_targets(head) + move_targets(rest));
        }
        assert(move_targets(b.ray_seq_from(x, y, c, d, n)) =~= b.ray_seq(x as int, y as int, d, c, false, n));
    } else {
        assert(move_targets(b.ray_seq_from(x, y, c, d, n)) =~= b.ray_seq(x as int, y as int, d, c, false, n));
    }
}

/// The targets of the sliding moves of the first `k` directions are the
/// slider squares stopped only by enemies.
proof fn lemma_slide_moves_targets(b: BoardModel, x: i32, y: i32, c: i32, t: u8, k: int)
    ensures
        move_targets(b.slide_seq_upto(x, y, c, t, k)) == b.slider_seq(x as int, y as int, c, t, false, k),
    decreases k,
{
    if k > 0 {
        lemma_slide_moves_targets(b, x, y, c, t, k - 1);
        lemma_ray_moves_targets(b, x, y, c, slider_dir(t, k - 1), 1);
        let prev = b.slide_seq_upto(x, y, c, t, k - 1);
        let ray = b.ray_seq_from(x, y, c, slider_dir(t, k - 1), 1);
        assert(move_targets(prev + ray) =~= move_targets(prev) + move_targets(ray));
    } else {
        assert(move_targets(b.slide_seq_upto(x, y, c, t, k)) =~= b.slider_seq(x as int, y as int, c, t, false, k));
    }
}

/// The targets of the jump moves among the first `k` offsets are the jump
/// squares that are empty or hold an enemy.
proof fn lemma_jump_moves_targets(b: BoardModel, x: i32, y: i32, c: i32, kind: u8, k: int, e: (i32, i32))
    requires
        0 <= k,
    ensures
        move_targets(b.jump_seq_upto(x, y, c, kind, k)).contains(e) <==> jump_seq(x as int, y as int, kind, k).contains(e)
            && (b.sq(e.0 as int, e.1 as int) == 0 || b.at(e.0 as int, e.1 as int).color != c),
    decreases k,
{
    if k > 0 {
        lemma_jump_moves_targets(b, x, y, c, kind, k - 1, e);
        let off = jump_off(kind, k - 1);
        let (tx, ty) = (x + off.0, y + off.1);
        let pm = b.jump_seq_upto(x, y, c, kind, k - 1);
        let pj = jump_seq(x as int, y as int, kind, k - 1);
        let te: (i32, i32) = (tx as i32, ty as i32);
        if on_board(tx, ty) {
            assert(jump_seq(x as int, y as int, kind, k) == pj.push(te));
            crate::seq_facts::lemma_push_contains(pj, te);
            if b.sq(tx, ty) == 0 || b.at(tx, ty).color != c {
                let m = Move::plain(x, y, tx as i32, ty as i32);
                assert(move_targets(pm.push(m)) =~= move_targets(pm).push(te));
                crate::seq_facts::lemma_push_contains(move_targets(pm), te);
            } else {
                if e == te {
                    if move_targets(pm).contains(e) {
                        assert(pj.contains(e));
                    }
                }
            }
        }
    }
}

/// Squares a piece of colour `c` on (x, y) reaches with a plain move: a pawn
/// the square ahead when empty and the squares diagonally ahead holding an
/// enemy; any other piece the squares its target geometry names (rays
/// stopped by enemies) that are empty or hold an enemy.
pub open spec fn reach_geometry(b: BoardModel, p: Piece, c: i32, e: (i32, i32)) -> bool {
    let (x, y) = (p.x as int, p.y as int);
    let (ex, ey) = (e.0 as int, e.1 as int);
    if p.ptype == PAWN {
        &&& on_board(ex, ey)
        &&& ey == y + pawn_dir(c)
        &&& {
            ||| ex == x && b.sq(ex, ey) == 0
            ||| (ex - x == 1 || x - ex == 1) && b.sq(ex, ey) != 0 && b.at(ex, ey).color != c
        }
    } else {
        &&& target_geometry(b, p, c, false, e)
        &&& (b.sq(ex, ey) == 0 || b.at(ex, ey).color != c)
    }
}

/// A piece's reach list holds exactly the squares its reach geometry names.
pub proof fn lemma_reach_squares(b: BoardModel, p: Piece, c: i32, e: (i32, i32))
    requires
        on_board(p.x as int, p.y as int),
        PAWN <= p.ptype <= KING,
    ensures
        b.reach_seq(p, c).contains(e) <==> reach_geometry(b, p, c, e),
{
    let (x, y) = (p.x as int, p.y as int);
    let (ex, ey) = (e.0 as int, e.1 as int);
    if p.ptype == PAWN {
        let ty = y + pawn_dir(c);
        let push: Seq<(i32, i32)> = if on_board(x, ty) && b.sq(x, ty) == 0 { seq![(x as i32, ty as i32)] } else { Seq::empty() };
        let left: Seq<(i32, i32)> = if on_board(x - 1, ty) && b.sq(x - 1, ty) != 0 && b.at(x - 1, ty).color != c {
            seq![((x - 1) as i32, ty as i32)]
        } else {
            Seq::empty()
        };
        let right: Seq<(i32, i32)> = if on_board(x + 1, ty) && b.sq(x + 1, ty) != 0 && b.at(x + 1, ty).color != c {
            seq![((x + 1) as i32, ty as i32)]
        } else {
            Seq::empty()
        };
        assert(b.pawn_reach_seq(x, y, c) == push + left + right);
        lemma_add_contains(push, left);
        lemma_add_contains(push + left, right);
        if push.contains(e) { assert(push[0] == e); }
        if left.contains(e) { assert(left[0] == e); }
        if right.contains(e) { assert(right[0] == e); }
        if reach_geometry(b, p, c, e) {
            if ex == x {
                assert(push[0] == e);
            } else if ex == x - 1 {
                assert(left[0] == e);
            } else {
                assert(right[0] == e);
            }
        }
    } else if p.ptype == KNIGHT || p.ptype == KING {
        lemma_jump_moves_targets(b, p.x, p.y, c, p.ptype, 8, e);
        lemma_target_squares(b, p, c, false, e);
        assert(b.target_seq(p, c, false) == jump_seq(x, y, p.ptype, 8));
    } else {
        lemma_slide_moves_targets(b, p.x, p.y, c, p.ptype, slider_dir_count(p.ptype));
        lemma_target_squares(b, p, c, false, e);
    }
}

proof fn lemma_run_from(b: BoardModel, x: int, y: int, dir: int, k: int, dist: int)
    requires
        dir == 1 || dir == -1,
        1 <= k <= dist + 1,
        on_board(x, y),
        0 <= y + dir * dist <= 7,
    ensures
        ({
            let s = b.run_squares(x, y, dir, k, dist);
            &&& k + s.len() <= dist + 1
            &&& forall|i: int| 0 <= i < s.len() ==> #[trigger] s[i] == (x as i32, shift(y, dir, k + i) as i32)
                    && b.sq(x, shift(y, dir, k + i)) == 0
            &&& b.run_clear(x, y, dir, k, dist) <==> (forall|j: int| k <= j <= dist ==> #[trigger] b.sq(x, shift(y, dir, j)) == 0)
            &&& b.run_clear(x, y, dir, k, dist) ==> k + s.len() == dist + 1
            &&& !b.run_clear(x, y, dir, k, dist) ==> b.sq(x, shift(y, dir, k + s.len() as int)) != 0
        }),
    decreases dist - k + 1,
{
    let ny = shift(y, dir, k);
    if k <= dist {
        assert(on_board(x, ny));
        if b.sq(x, ny) == 0 {
            lemma_run_from(b, x, y, dir, k + 1, dist);
            let s = b.run_squares(x, y, dir, k, dist);
            let rest = b.run_squares(x, y, dir, k + 1, dist);
            assert(s == seq![(x as i32, ny as i32)] + rest);
            assert forall|i: int| 0 <= i < s.len() implies #[trigger] s[i] == (x as i32, shift(y, dir, k + i) as i32)
                && b.sq(x, shift(y, dir, k + i)) == 0 by {
                if i > 0 {
                    assert(s[i] == rest[i - 1]);
                }
            }
            if b.run_clear(x, y, dir, k + 1, dist) {
                assert forall|j: int| k <= j <= dist implies #[trigger] b.sq(x, shift(y, dir, j)) == 0 by {
                    if j > k {
                        assert(b.sq(x, shift(y, dir, j)) == 0);
                    }
                }
            }
        } else {
            assert(b.run_squares(x, y, dir, k, dist).len() == 0);
        }
    }
}

/// The run of a pawn of colour `c` on (x, y) toward its last rank: its
/// squares are the squares straight ahead, one after another from the
/// square in front, all empty; the way is clear exactly when every square
/// ahead up to the last rank is empty, and then the run reaches the last
/// rank; otherwise the run stops right before the first occupied square.
pub proof fn lemma_pawn_run(b: BoardModel, x: int, y: int, c: i32)
    requires
        on_board(x, y),
    ensures
        ({
            let dir = pawn_dir(c);
            let dist = BoardModel::steps_to_promote(y, c);
            let s = b.run_squares(x, y, dir, 1, dist);
            let clear = b.run_clear(x, y, dir, 1, dist);
            &&& forall|i: int| 0 <= i < s.len() ==> #[trigger] s[i] == (x as i32, shift(y, dir, i + 1) as i32)
                    && b.sq(x, shift(y, dir, i + 1)) == 0
            &&& clear <==> (forall|j: int| 1 <= j <= dist ==> #[trigger] b.sq(x, shift(y, dir, j)) == 0)
            &&& clear ==> s.len() == dist
            &&& !clear ==> s.len() < dist && b.sq(x, shift(y, dir, s.len() as int + 1)) != 0
        }),
{
    let dir = pawn_dir(c);
    let dist = BoardModel::steps_to_promote(y, c);
    lemma_run_from(b, x, y, dir, 1, dist);
    let s = b.run_squares(x, y, dir, 1, dist);
    assert forall|i: int| 0 <= i < s.len() implies #[trigger] s[i] == (x as i32, shift(y, dir, i + 1) as i32)
        && b.sq(x, shift(y, dir, i + 1)) == 0 by {
        assert(s[i] == (x as i32, shift(y, dir, 1 + i) as i32));
    }
    if !b.run_clear(x, y, dir, 1, dist) {
        let j = choose|j: int| !(1 <= j <= dist ==> #[trigger] b.sq(x, shift(y, dir, j)) == 0);
        assert(s.len() < dist) by {
            if s.len() >= dist {
                assert(s[j - 1] == (x as i32, shift(y, dir, j) as i32));
            }
        }
    }
}

proof fn lemma_knight_count(b: BoardModel, x: i32, y: i32, c: i32, k: int)
    ensures
        crate::fields::knight_free_count(b, x as int, y as int, c, k) == b.jump_seq_upto(x, y, c, KNIGHT, k).len(),
    decreases k,
{
    if k > 0 {
        lemma_knight_count(b, x, y, c, k - 1);
    }
}

/// Mobility counts the squares the piece's lists hold: a knight's mobility
/// is the length of its reach list, a bishop's, rook's or queen's the length
/// of its future target list (rays up to and including the first occupied
/// square); pawns and kings have none.
pub proof fn lemma_mobility_counts_targets(b: BoardModel, p: Piece)
    requires
        on_board(p.x as int, p.y as int),
        PAWN <= p.ptype <= KING,
    ensures
        p.ptype == KNIGHT ==> b.mobility(p) == b.reach_seq(p, p.color).len(),
        (p.ptype == BISHOP || p.ptype == ROOK || p.ptype == QUEEN) ==> b.mobility(p) == b.target_seq(p, p.color, true).len(),
        (p.ptype == PAWN || p.ptype == KING) ==> b.mobility(p) == 0,
{
    if p.ptype == KNIGHT {
        lemma_knight_count(b, p.x, p.y, p.color, 8);
    }
}

/// The path of a move: a rank, file or diagonal move walks one square at a
/// time in the move's direction, from the square next to the start, and
/// ends on the target after as many steps as the move is long; a move that
/// stays put has its start as its path; any other move has just its target.
pub proof fn lemma_path_shape(fx: i32, fy: i32, tx: i32, ty: i32)
    ensures
        ({
            let p = crate::fields::path_seq(fx as int, fy as int, tx as int, ty as int);
            let (dx, dy) = (tx - fx, ty - fy);
            let (ux, uy) = (unit_of(dx), unit_of(dy));
            let straight = dx == 0 || dy == 0 || dx == dy || dx == -dy;
            &&& p.len() >= 1
            &&& (fx == tx && fy == ty) ==> p == seq![(fx, fy)]
            &&& !straight ==> p == seq![(tx, ty)]
            &&& straight && !(fx == tx && fy == ty) ==> {
                &&& p.len() == (if abs_of(dx) >= abs_of(dy) { abs_of(dx) } else { abs_of(dy) })
                &&& p[0].0 == fx + ux && p[0].1 == fy + uy
                &&& forall|k: int| 0 <= k < p.len() - 1 ==> #[trigger] p[k + 1].0 - p[k].0 == ux && p[k + 1].1 - p[k].1 == uy
                &&& p[p.len() - 1] == (tx, ty)
            }
        }),
{
    let p = crate::fields::path_seq(fx as int, fy as int, tx as int, ty as int);
    let (dx, dy) = (tx - fx, ty - fy);
    let (ux, uy) = (unit_of(dx), unit_of(dy));
    let straight = dx == 0 || dy == 0 || dx == dy || dx == -dy;
    if straight && !(fx == tx && fy == ty) {
        let n = p.len() as int;
        assert(n == (if abs_of(dx) >= abs_of(dy) { abs_of(dx) } else { abs_of(dy) }));
        assert forall|k: int| 0 <= k < n implies #[trigger] p[k] == (shift(fx as int, ux, k + 1) as i32, shift(fy as int, uy, k + 1) as i32)
            && fx as int + (if ux > 0 { k + 1 } else if ux < 0 { -(k + 1) } else { 0 }) == shift(fx as int, ux, k + 1)
            && (i32::MIN <= shift(fx as int, ux, k + 1) <= i32::MAX)
            && (i32::MIN <= shift(fy as int, uy, k + 1) <= i32::MAX) by {
        }
        assert forall|k: int| 0 <= k < n - 1 implies #[trigger] p[k + 1].0 - p[k].0 == ux && p[k + 1].1 - p[k].1 == uy by {
            assert(p[k] == (shift(fx as int, ux, k + 1) as i32, shift(fy as int, uy, k + 1) as i32));
            assert(p[k + 1] == (shift(fx as int, ux, k + 2) as i32, shift(fy as int, uy, k + 2) as i32));
        }
        assert(p[0] == (shift(fx as int, ux, 1) as i32, shift(fy as int, uy, 1) as i32));
        assert(p[n - 1] == (shift(fx as int, ux, n) as i32, shift(fy as int, uy, n) as i32));
    }
}

} // verus!
