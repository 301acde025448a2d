//! Board geometry, colours, piece codes and the movement tables of the pieces.

use vstd::prelude::*;

verus! {

pub const BOARD_SIZE: usize = 8;

/// Number of toggleable extra evaluation algorithms.
pub const N_EXTRAS: usize = 13;

pub const WHITE: i32 = 1;
pub const BLACK: i32 = -1;

pub const EMPTY: u8 = 0;
pub const PAWN: u8 = 1;
pub const KNIGHT: u8 = 2;
pub const BISHOP: u8 = 3;
pub const ROOK: u8 = 4;
pub const QUEEN: u8 = 5;
pub const KING: u8 = 6;

/// Castling-right bit flags.
pub const CASTLE_WK: u8 = 1;
pub const CASTLE_WQ: u8 = 2;
pub const CASTLE_BK: u8 = 4;
pub const CASTLE_BQ: u8 = 8;

/// A square lies on the 8x8 board.
pub open spec fn on_board(x: int, y: int) -> bool {
    0 <= x < 8 && 0 <= y < 8
}

pub fn in_bounds(x: i32, y: i32) -> (r: bool)
    ensures
        r == on_board(x as int, y as int),
{
    x >= 0 && x < 8 && y >= 0 && y < 8
}

/// The eight knight jumps, in generation order.
pub open spec fn knight_off(k: int) -> (i32, i32) {
    if k == 0 { (1i32, 2i32) }
    else if k == 1 { (2i32, 1i32) }
    else if k == 2 { (-1i32, 2i32) }
    else if k == 3 { (-2i32, 1i32) }
    else if k == 4 { (1i32, -2i32) }
    else if k == 5 { (2i32, -1i32) }
    else if k == 6 { (-1i32, -2i32) }
    else { (-2i32, -1i32) }
}

/// The eight king steps, in generation order.
pub open spec fn king_off(k: int) -> (i32, i32) {
    if k == 0 { (1i32, 1i32) }
    else if k == 1 { (1i32, 0i32) }
    else if k == 2 { (1i32, -1i32) }
    else if k == 3 { (0i32, 1i32) }
    else if k == 4 { (0i32, -1i32) }
    else if k == 5 { (-1i32, 1i32) }
    else if k == 6 { (-1i32, 0i32) }
    else { (-1i32, -1i32) }
}

/// The four diagonal directions.
pub open spec fn bishop_dir(k: int) -> (i32, i32) {
    if k == 0 { (1i32, 1i32) }
    else if k == 1 { (1i32, -1i32) }
    else if k == 2 { (-1i32, 1i32) }
    else { (-1i32, -1i32) }
}

/// The four orthogonal directions.
pub open spec fn rook_dir(k: int) -> (i32, i32) {
    if k == 0 { (1i32, 0i32) }
    else if k == 1 { (-1i32, 0i32) }
    else if k == 2 { (0i32, 1i32) }
    else { (0i32, -1i32) }
}

/// The eight queen directions: the diagonals, then the orthogonals.
pub open spec fn queen_dir(k: int) -> (i32, i32) {
    if k < 4 { bishop_dir(k) } else { rook_dir(k - 4) }
}

pub fn knight_offset(k: usize) -> (r: (i32, i32))
    requires
        k < 8,
    ensures
        r == knight_off(k as int),
{
    match k {
        0 => (1, 2),
        1 => (2, 1),
        2 => (-1, 2),
        3 => (-2, 1),
        4 => (1, -2),
        5 => (2, -1),
        6 => (-1, -2),
        _ => (-2, -1),
    }
}

pub fn king_offset(k: usize) -> (r: (i32, i32))
    requires
        k < 8,
    ensures
        r == king_off(k as int),
{
    match k {
        0 => (1, 1),
        1 => (1, 0),
        2 => (1, -1),
        3 => (0, 1),
        4 => (0, -1),
        5 => (-1, 1),
        6 => (-1, 0),
        _ => (-1, -1),
    }
}

pub fn bishop_direction(k: usize) -> (r: (i32, i32))
    requires
        k < 4,
    ensures
        r == bishop_dir(k as int),
{
    match k {
        0 => (1, 1),
        1 => (1, -1),
        2 => (-1, 1),
        _ => (-1, -1),
    }
}

pub fn rook_direction(k: usize) -> (r: (i32, i32))
    requires
        k < 4,
    ensures
        r == rook_dir(k as int),
{
    match k {
        0 => (1, 0),
        1 => (-1, 0),
        2 => (0, 1),
        _ => (0, -1),
    }
}

/// The ray directions of a sliding piece type: bishop diagonals, rook
/// orthogonals, and all eight for anything else.
pub open spec fn slider_dir_seq(t: u8) -> Seq<(i32, i32)> {
    if t == BISHOP {
        seq![bishop_dir(0), bishop_dir(1), bishop_dir(2), bishop_dir(3)]
    } else if t == ROOK {
        seq![rook_dir(0), rook_dir(1), rook_dir(2), rook_dir(3)]
    } else {
        seq![
            queen_dir(0), queen_dir(1), queen_dir(2), queen_dir(3),
            queen_dir(4), queen_dir(5), queen_dir(6), queen_dir(7),
        ]
    }
}

/// Return the move directions for a sliding piece type.
pub fn slider_dirs(t: u8) -> (r: Vec<(i32, i32)>)
    ensures
        r@ == slider_dir_seq(t),
{
    let mut v: Vec<(i32, i32)> = Vec::new();
    if t == BISHOP {
        let mut k: usize = 0;
        while k < 4
            invariant
                k <= 4,
                v@ == Seq::new(k as nat, |i: int| bishop_dir(i)),
            decreases 4 - k,
        {
            v.push(bishop_direction(k));
            k += 1;
        }
    } else if t == ROOK {
        let mut k: usize = 0;
        while k < 4
            invariant
                k <= 4,
                v@ == Seq::new(k as nat, |i: int| rook_dir(i)),
            decreases 4 - k,
        {
            v.push(rook_direction(k));
            k += 1;
        }
    } else {
        let mut k: usize = 0;
        while k < 8
            invariant
                k <= 8,
                v@ == Seq::new(k as nat, |i: int| queen_dir(i)),
            decreases 8 - k,
        {
            if k < 4 {
                v.push(bishop_direction(k));
            } else {
                v.push(rook_direction(k - 4));
            }
            k += 1;
        }
    }
    assert(v@ =~= slider_dir_seq(t));
    v
}

/// Number of ray directions of a sliding piece type.
pub open spec fn slider_dir_count(t: u8) -> int {
    if t == BISHOP || t == ROOK { 4 } else { 8 }
}

/// The k-th ray direction of a sliding piece type.
pub open spec fn slider_dir(t: u8, k: int) -> (i32, i32) {
    if t == BISHOP { bishop_dir(k) } else if t == ROOK { rook_dir(k) } else { queen_dir(k) }
}

pub proof fn lemma_slider_dir_seq(t: u8)
    ensures
        slider_dir_seq(t).len() == slider_dir_count(t),
        forall|k: int| 0 <= k < slider_dir_count(t) ==> #[trigger] slider_dir_seq(t)[k] == slider_dir(t, k),
{
}

} // verus!
