//! Four-connected regions of a boolean board: which marked squares can walk,
//! through marked squares only, to a square of a target zone.

use vstd::prelude::*;
use crate::constants::{in_bounds, on_board};
use crate::fields::bool_grid;

verus! {

/// Squares `a` and `b` share an edge.
pub open spec fn adj4(a: (int, int), b: (int, int)) -> bool {
    ||| a.1 == b.1 && (a.0 - b.0 == 1 || b.0 - a.0 == 1)
    ||| a.0 == b.0 && (a.1 - b.1 == 1 || b.1 - a.1 == 1)
}

/// The `j`-th edge neighbour of (x, y), in the order right, left, up, down.
pub open spec fn nbr(x: int, y: int, j: int) -> (int, int) {
    if j == 0 {
        (x + 1, y)
    } else if j == 1 {
        (x - 1, y)
    } else if j == 2 {
        (x, y + 1)
    } else {
        (x, y - 1)
    }
}

/// Square `c` lies on the board and is marked in `m` (indexed [y][x]).
pub open spec fn in_region(m: Seq<Seq<bool>>, c: (int, int)) -> bool {
    on_board(c.0, c.1) && m[c.1][c.0]
}

pub open spec fn walk_step(p: Seq<(int, int)>, i: int) -> bool {
    adj4(p[i], p[i + 1])
}

/// `p` is a non-empty walk through marked squares, each step to an edge neighbour.
pub open spec fn is_walk(m: Seq<Seq<bool>>, p: Seq<(int, int)>) -> bool {
    &&& p.len() >= 1
    &&& forall|i: int| 0 <= i < p.len() ==> #[trigger] in_region(m, p[i])
    &&& forall|i: int| 0 <= i < p.len() - 1 ==> #[trigger] walk_step(p, i)
}

/// Some walk through marked squares leads from `a` to `b`.
pub open spec fn linked(m: Seq<Seq<bool>>, a: (int, int), b: (int, int)) -> bool {
    exists|p: Seq<(int, int)>| #[trigger] is_walk(m, p) && p[0] == a && p.last() == b
}

/// Square `c` is marked and its region of marked squares holds a square of the zone `z`.
pub open spec fn reaches_zone(m: Seq<Seq<bool>>, z: Seq<Seq<bool>>, c: (int, int)) -> bool {
    exists|t: (int, int)| on_board(t.0, t.1) && z[t.1][t.0] && #[trigger] linked(m, c, t)
}

proof fn lemma_linked_refl(m: Seq<Seq<bool>>, a: (int, int))
    requires
        in_region(m, a),
    ensures
        linked(m, a, a),
{
    let p = seq![a];
    assert(is_walk(m, p));
}

proof fn lemma_linked_step(m: Seq<Seq<bool>>, a: (int, int), b: (int, int), c: (int, int))
    requires
        linked(m, a, b),
        in_region(m, c),
        adj4(b, c),
    ensures
        linked(m, a, c),
{
    let p = choose|p: Seq<(int, int)>| #[trigger] is_walk(m, p) && p[0] == a && p.last() == b;
    let q = p.push(c);
    assert forall|i: int| 0 <= i < q.len() implies #[trigger] in_region(m, q[i]) by {
        if i < p.len() {
            assert(in_region(m, p[i]));
        }
    }
    assert forall|i: int| 0 <= i < q.len() - 1 implies #[trigger] walk_step(q, i) by {
        if i < p.len() - 1 {
            assert(walk_step(p, i));
        }
    }
    assert(is_walk(m, q));
}

proof fn lemma_linked_sym(m: Seq<Seq<bool>>, a: (int, int), b: (int, int))
    requires
        linked(m, a, b),
    ensures
        linked(m, b, a),
{
    let p = choose|p: Seq<(int, int)>| #[trigger] is_walk(m, p) && p[0] == a && p.last() == b;
    let n = p.len();
    let q = Seq::new(n, |i: int| p[n - 1 - i]);
    assert forall|i: int| 0 <= i < q.len() implies #[trigger] in_region(m, q[i]) by {
        assert(in_region(m, p[n - 1 - i]));
    }
    assert forall|i: int| 0 <= i < q.len() - 1 implies #[trigger] walk_step(q, i) by {
        assert(walk_step(p, n - 2 - i));
    }
    assert(is_walk(m, q));
}

/// Every square of a walk that starts at a square linked to `a` is linked to `a`.
proof fn lemma_linked_along(m: Seq<Seq<bool>>, a: (int, int), q: Seq<(int, int)>, k: int)
    requires
        is_walk(m, q),
        linked(m, a, q[0]),
        0 <= k < q.len(),
    ensures
        linked(m, a, q[k]),
    decreases k,
{
    if k > 0 {
        lemma_linked_along(m, a, q, k - 1);
        assert(walk_step(q, k - 1));
        assert(in_region(m, q[k]));
        lemma_linked_step(m, a, q[k - 1], q[k]);
    }
}

proof fn lemma_linked_trans(m: Seq<Seq<bool>>, a: (int, int), b: (int, int), c: (int, int))
    requires
        linked(m, a, b),
        linked(m, b, c),
    ensures
        linked(m, a, c),
{
    let q = choose|q: Seq<(int, int)>| #[trigger] is_walk(m, q) && q[0] == b && q.last() == c;
    lemma_linked_along(m, a, q, q.len() - 1);
}

/// Square (x, y), when on the board and marked, is marked in `v` too.
pub open spec fn marked_if_open(m: Seq<Seq<bool>>, v: Seq<Seq<bool>>, c: (int, int)) -> bool {
    in_region(m, c) ==> v[c.1][c.0]
}

/// Every marked edge neighbour of (x, y) is marked in `v`.
pub open spec fn neighbors_marked(m: Seq<Seq<bool>>, v: Seq<Seq<bool>>, x: int, y: int) -> bool {
    forall|j: int| 0 <= j < 4 ==> #[trigger] marked_if_open(m, v, nbr(x, y, j))
}

/// The squares marked in `v` are closed under steps between marked squares of `m`.
pub open spec fn closed_under_steps(m: Seq<Seq<bool>>, v: Seq<Seq<bool>>) -> bool {
    forall|x: int, y: int| on_board(x, y) && v[y][x] ==> #[trigger] neighbors_marked(m, v, x, y)
}

proof fn lemma_adj_is_nbr(a: (int, int), b: (int, int)) -> (j: int)
    requires
        adj4(a, b),
    ensures
        0 <= j < 4,
        nbr(a.0, a.1, j) == b,
{
    if b.0 == a.0 + 1 && b.1 == a.1 {
        0
    } else if b.0 == a.0 - 1 && b.1 == a.1 {
        1
    } else if b.1 == a.1 + 1 {
        2
    } else {
        3
    }
}

/// A closed set that holds the start of a walk holds every square of it.
proof fn lemma_closed_walk(m: Seq<Seq<bool>>, v: Seq<Seq<bool>>, p: Seq<(int, int)>, k: int)
    requires
        closed_under_steps(m, v),
        is_walk(m, p),
        v[p[0].1][p[0].0],
        0 <= k < p.len(),
    ensures
        v[p[k].1][p[k].0],
    decreases k,
{
    if k > 0 {
        lemma_closed_walk(m, v, p, k - 1);
        let a = p[k - 1];
        assert(in_region(m, a));
        assert(walk_step(p, k - 1));
        let j = lemma_adj_is_nbr(a, p[k]);
        assert(neighbors_marked(m, v, a.0, a.1));
        assert(marked_if_open(m, v, nbr(a.0, a.1, j)));
        assert(in_region(m, p[k]));
    }
}

/// Number of unmarked squares among the first `n` squares of a row.
pub open spec fn open_in_row(r: Seq<bool>, n: int) -> int
    decreases n,
{
    if n <= 0 {
        0
    } else {
        open_in_row(r, n - 1) + if r[n - 1] { 0int } else { 1int }
    }
}

/// Number of unmarked squares in the first `n` rows of a board.
pub open spec fn open_squares(v: Seq<Seq<bool>>, n: int) -> int
    decreases n,
{
    if n <= 0 {
        0
    } else {
        open_squares(v, n - 1) + open_in_row(v[n - 1], 8)
    }
}

proof fn lemma_open_in_row_nonneg(r: Seq<bool>, n: int)
    ensures
        open_in_row(r, n) >= 0,
    decreases n,
{
    if n > 0 {
        lemma_open_in_row_nonneg(r, n - 1);
    }
}

proof fn lemma_open_squares_nonneg(v: Seq<Seq<bool>>, n: int)
    ensures
        open_squares(v, n) >= 0,
    decreases n,
{
    if n > 0 {
        lemma_open_squares_nonneg(v, n - 1);
        lemma_open_in_row_nonneg(v[n - 1], 8);
    }
}

proof fn lemma_row_same(r1: Seq<bool>, r2: Seq<bool>, n: int)
    requires
        n <= 8,
        forall|i: int| 0 <= i < 8 ==> r1[i] == r2[i],
    ensures
        open_in_row(r1, n) == open_in_row(r2, n),
    decreases n,
{
    if n > 0 {
        lemma_row_same(r1, r2, n - 1);
    }
}

proof fn lemma_row_mark(r1: Seq<bool>, r2: Seq<bool>, x: int, n: int)
    requires
        0 <= x < 8,
        n <= 8,
        !r1[x],
        forall|i: int| 0 <= i < 8 ==> r2[i] == (r1[i] || i == x),
    ensures
        open_in_row(r2, n) == open_in_row(r1, n) - if x < n { 1int } else { 0int },
    decreases n,
{
    if n > 0 {
        lemma_row_mark(r1, r2, x, n - 1);
    }
}

/// Marking one unmarked square of the board lowers the open count by one.
proof fn lemma_open_mark(v1: Seq<Seq<bool>>, v2: Seq<Seq<bool>>, x: int, y: int, n: int)
    requires
        on_board(x, y),
        n <= 8,
        !v1[y][x],
        forall|x2: int, y2: int| on_board(x2, y2) ==> #[trigger] v2[y2][x2] == (v1[y2][x2] || (x2 == x && y2 == y)),
    ensures
        open_squares(v2, n) == open_squares(v1, n) - if y < n { 1int } else { 0int },
    decreases n,
{
    if n > 0 {
        lemma_open_mark(v1, v2, x, y, n - 1);
        let r = n - 1;
        if r == y {
            assert forall|i: int| 0 <= i < 8 implies v2[r][i] == (v1[r][i] || i == x) by {
                assert(v2[r][i] == (v1[r][i] || (i == x && r == y)));
            }
            lemma_row_mark(v1[r], v2[r], x, 8);
        } else {
            assert forall|i: int| 0 <= i < 8 implies v1[r][i] == v2[r][i] by {
                assert(v2[r][i] == (v1[r][i] || (i == x && r == y)));
            }
            lemma_row_same(v1[r], v2[r], 8);
        }
    }
}

/// A list entry as a pair of mathematical integers.
pub open spec fn pt(e: (i32, i32)) -> (int, int) {
    (e.0 as int, e.1 as int)
}

/// Square `q` is an entry of the list `l`.
pub open spec fn listed(l: Seq<(i32, i32)>, q: (int, int)) -> bool {
    exists|k: int| 0 <= k < l.len() && #[trigger] pt(l[k]) == q
}

proof fn lemma_listed_push(l: Seq<(i32, i32)>, e: (i32, i32))
    ensures
        forall|q: (int, int)| #[trigger] listed(l.push(e), q) <==> (listed(l, q) || q == pt(e)),
{
    assert forall|q: (int, int)| #[trigger] listed(l.push(e), q) <==> (listed(l, q) || q == pt(e)) by {
        let lp = l.push(e);
        if listed(lp, q) {
            let k = choose|k: int| 0 <= k < lp.len() && #[trigger] pt(lp[k]) == q;
            if k < l.len() {
                assert(pt(l[k]) == q);
            }
        }
        if listed(l, q) {
            let k = choose|k: int| 0 <= k < l.len() && #[trigger] pt(l[k]) == q;
            assert(pt(lp[k]) == q);
        }
        if q == pt(e) {
            assert(pt(lp[l.len() as int]) == q);
        }
    }
}

proof fn lemma_listed_pop(l: Seq<(i32, i32)>)
    requires
        l.len() > 0,
    ensures
        forall|q: (int, int)| #[trigger] listed(l, q)
            <==> (listed(l.subrange(0, l.len() - 1), q) || q == pt(l[l.len() - 1])),
{
    let f = l.subrange(0, l.len() - 1);
    assert(l =~= f.push(l[l.len() - 1]));
    lemma_listed_push(f, l[l.len() - 1]);
}

/// The zone holds the square of a list entry.
pub open spec fn zone_at(z: Seq<Seq<bool>>, e: (i32, i32)) -> bool {
    z[e.1 as int][e.0 as int]
}

/// Marks `v` and answers `o` that the flood fill keeps between regions: the
/// marked squares are closed under steps and lie in `m`, and a square is
/// answered `true` exactly when it is marked and reaches the zone.
pub open spec fn consistent_marks(m: Seq<Seq<bool>>, z: Seq<Seq<bool>>, v: Seq<Seq<bool>>, o: Seq<Seq<bool>>) -> bool {
    &&& closed_under_steps(m, v)
    &&& forall|x: int, y: int| on_board(x, y) && #[trigger] v[y][x] ==> m[y][x]
    &&& forall|x: int, y: int| on_board(x, y) ==> #[trigger] o[y][x] == (v[y][x] && reaches_zone(m, z, (x, y)))
}

proof fn lemma_reaches_in_region(m: Seq<Seq<bool>>, z: Seq<Seq<bool>>, c: (int, int))
    requires
        reaches_zone(m, z, c),
    ensures
        in_region(m, c),
{
    let t = choose|t: (int, int)| on_board(t.0, t.1) && z[t.1][t.0] && #[trigger] linked(m, c, t);
    let p = choose|p: Seq<(int, int)>| #[trigger] is_walk(m, p) && p[0] == c && p.last() == t;
    assert(in_region(m, p[0]));
}

/// What a finished search of one region gives: the marks stay closed, and every
/// square of the region is answered by whether some square of it lies in the zone.
proof fn lemma_region_done(
    m: Seq<Seq<bool>>,
    z: Seq<Seq<bool>>,
    vp: Seq<Seq<bool>>,
    v: Seq<Seq<bool>>,
    cells: Seq<(i32, i32)>,
    s: (int, int),
    touches: bool,
)
    requires
        closed_under_steps(m, vp),
        forall|x: int, y: int| on_board(x, y) && #[trigger] vp[y][x] ==> m[y][x],
        forall|x: int, y: int| on_board(x, y) ==> #[trigger] v[y][x] == (vp[y][x] || listed(cells, (x, y))),
        forall|k: int| 0 <= k < cells.len() ==> {
            let c = #[trigger] pt(cells[k]);
            &&& in_region(m, c)
            &&& !vp[c.1][c.0]
            &&& linked(m, s, c)
            &&& neighbors_marked(m, v, c.0, c.1)
        },
        in_region(m, s),
        !vp[s.1][s.0],
        listed(cells, s),
        touches == exists|k: int| 0 <= k < cells.len() && #[trigger] zone_at(z, cells[k]),
    ensures
        closed_under_steps(m, v),
        forall|x: int, y: int| on_board(x, y) && #[trigger] v[y][x] ==> m[y][x],
        forall|q: (int, int)| #[trigger] listed(cells, q) ==> (touches == reaches_zone(m, z, q)),
{
    assert forall|x: int, y: int| on_board(x, y) && v[y][x] implies #[trigger] neighbors_marked(m, v, x, y) by {
        if vp[y][x] {
            assert(neighbors_marked(m, vp, x, y));
            assert forall|j: int| 0 <= j < 4 implies #[trigger] marked_if_open(m, v, nbr(x, y, j)) by {
                assert(marked_if_open(m, vp, nbr(x, y, j)));
                let n = nbr(x, y, j);
                if in_region(m, n) {
                    assert(vp[n.1][n.0]);
                    assert(v[n.1][n.0]);
                }
            }
        } else {
            assert(listed(cells, (x, y)));
            let k = choose|k: int| 0 <= k < cells.len() && #[trigger] pt(cells[k]) == (x, y);
            assert(neighbors_marked(m, v, pt(cells[k]).0, pt(cells[k]).1));
        }
    }
    assert forall|x: int, y: int| on_board(x, y) && #[trigger] v[y][x] implies m[y][x] by {
        if !vp[y][x] {
            let k = choose|k: int| 0 <= k < cells.len() && #[trigger] pt(cells[k]) == (x, y);
            assert(in_region(m, pt(cells[k])));
        }
    }
    // every square linked to the start was found in this search
    assert forall|t: (int, int)| #[trigger] linked(m, s, t) implies listed(cells, t) by {
        let p = choose|p: Seq<(int, int)>| #[trigger] is_walk(m, p) && p[0] == s && p.last() == t;
        assert(v[s.1][s.0]);
        lemma_closed_walk(m, v, p, p.len() - 1);
        assert(in_region(m, p[p.len() - 1]));
        if vp[t.1][t.0] {
            lemma_linked_sym(m, s, t);
            let r = choose|r: Seq<(int, int)>| #[trigger] is_walk(m, r) && r[0] == t && r.last() == s;
            lemma_closed_walk(m, vp, r, r.len() - 1);
            assert(false);
        }
    }
    assert forall|q: (int, int)| #[trigger] listed(cells, q) implies (touches == reaches_zone(m, z, q)) by {
        let kq = choose|k: int| 0 <= k < cells.len() && #[trigger] pt(cells[k]) == q;
        assert(linked(m, s, pt(cells[kq])));
        lemma_linked_sym(m, s, q);
        if touches {
            let k = choose|k: int| 0 <= k < cells.len() && #[trigger] zone_at(z, cells[k]);
            let t = pt(cells[k]);
            assert(in_region(m, t));
            assert(linked(m, s, t));
            lemma_linked_trans(m, q, s, t);
            assert(on_board(t.0, t.1) && z[t.1][t.0] && linked(m, q, t));
        }
        if reaches_zone(m, z, q) {
            let t = choose|t: (int, int)| on_board(t.0, t.1) && z[t.1][t.0] && #[trigger] linked(m, q, t);
            lemma_linked_trans(m, s, q, t);
            assert(listed(cells, t));
            let k = choose|k: int| 0 <= k < cells.len() && #[trigger] pt(cells[k]) == t;
            assert(zone_at(z, cells[k]));
        }
    }
}

/// Offset of the `j`-th edge neighbour (see `nbr`).
fn edge_offset(j: usize) -> (d: (i32, i32))
    requires
        j < 4,
    ensures
        -1 <= d.0 <= 1,
        -1 <= d.1 <= 1,
        forall|x: int, y: int| #[trigger] nbr(x, y, j as int) == (x + d.0, y + d.1),
{
    if j == 0 {
        (1, 0)
    } else if j == 1 {
        (-1, 0)
    } else if j == 2 {
        (0, 1)
    } else {
        (0, -1)
    }
}

/// Depth-first search of the region of (sx, sy): marks it visited and, when
/// one of its squares lies in the zone, answers all of its squares `true`.
fn flood_region(
    mask: &[[bool; 8]; 8],
    zone: &[[bool; 8]; 8],
    visited: &mut [[bool; 8]; 8],
    out: &mut [[bool; 8]; 8],
    sx: i32,
    sy: i32,
)
    requires
        on_board(sx as int, sy as int),
        mask@[sy as int]@[sx as int],
        !old(visited)@[sy as int]@[sx as int],
        consistent_marks(bool_grid(*mask), bool_grid(*zone), bool_grid(*old(visited)), bool_grid(*old(out))),
    ensures
        consistent_marks(bool_grid(*mask), bool_grid(*zone), bool_grid(*final(visited)), bool_grid(*final(out))),
        final(visited)@[sy as int]@[sx as int],
        forall|x: int, y: int| on_board(x, y) && old(visited)@[y]@[x] ==> #[trigger] final(visited)@[y]@[x],
{
    let ghost m = bool_grid(*mask);
    let ghost z = bool_grid(*zone);
    let ghost vp = bool_grid(*visited);
    let ghost out0 = bool_grid(*out);
    let ghost s = (sx as int, sy as int);
    let mut stack: Vec<(i32, i32)> = Vec::new();
    let mut cells: Vec<(i32, i32)> = Vec::new();
    let mut touches = false;
    visited[sy as usize][sx as usize] = true;
    stack.push((sx, sy));
    proof {
        lemma_linked_refl(m, s);
        lemma_listed_push(Seq::<(i32, i32)>::empty(), (sx, sy));
        assert(pt(stack@[0]) == s);
        assert forall|x: int, y: int| on_board(x, y) implies #[trigger] bool_grid(*visited)[y][x]
            == (vp[y][x] || listed(stack@, (x, y)) || listed(cells@, (x, y))) by {
            if x == s.0 && y == s.1 {
                assert(pt(stack@[0]) == (x, y));
            }
        }
        lemma_open_squares_nonneg(bool_grid(*visited), 8);
    }
    while stack.len() > 0
        invariant
            m == bool_grid(*mask),
            z == bool_grid(*zone),
            in_region(m, s),
            !vp[s.1][s.0],
            consistent_marks(m, z, vp, out0),
            bool_grid(*out) == out0,
            forall|x: int, y: int| on_board(x, y) ==> #[trigger] bool_grid(*visited)[y][x]
                == (vp[y][x] || listed(stack@, (x, y)) || listed(cells@, (x, y))),
            forall|k: int| 0 <= k < stack@.len() ==> {
                let c = #[trigger] pt(stack@[k]);
                &&& in_region(m, c)
                &&& !vp[c.1][c.0]
                &&& linked(m, s, c)
            },
            forall|k: int| 0 <= k < cells@.len() ==> {
                let c = #[trigger] pt(cells@[k]);
                &&& in_region(m, c)
                &&& !vp[c.1][c.0]
                &&& linked(m, s, c)
                &&& neighbors_marked(m, bool_grid(*visited), c.0, c.1)
            },
            listed(stack@, s) || listed(cells@, s),
            touches == exists|k: int| 0 <= k < cells@.len() && #[trigger] zone_at(z, cells@[k]),
            open_squares(bool_grid(*visited), 8) >= 0,
        decreases 2 * open_squares(bool_grid(*visited), 8) + stack.len(),
    {
        let ghost stack_before = stack@;
        let ghost cells_before = cells@;
        let top = stack.pop().unwrap();
        let (cx, cy) = top;
        cells.push((cx, cy));
        proof {
            lemma_listed_pop(stack_before);
            lemma_listed_push(cells_before, top);
        }
        if zone[cy as usize][cx as usize] {
            touches = true;
        }
        proof {
            assert(zone_at(z, cells@[cells@.len() - 1]) == zone[cy as int]@[cx as int]);
            if touches {
                if zone[cy as int]@[cx as int] {
                    assert(zone_at(z, cells@[cells@.len() - 1]));
                } else {
                    let k = choose|k: int| 0 <= k < cells_before.len() && #[trigger] zone_at(z, cells_before[k]);
                    assert(zone_at(z, cells@[k]));
                }
            }
            if exists|k: int| 0 <= k < cells@.len() && #[trigger] zone_at(z, cells@[k]) {
                let k = choose|k: int| 0 <= k < cells@.len() && #[trigger] zone_at(z, cells@[k]);
                if k < cells_before.len() {
                    assert(zone_at(z, cells_before[k]));
                }
            }
            assert forall|k: int| 0 <= k < cells@.len() - 1 implies
                neighbors_marked(m, bool_grid(*visited), #[trigger] pt(cells@[k]).0, pt(cells@[k]).1) by {
                assert(pt(cells_before[k]) == pt(cells@[k]));
            }
        }
        let ghost open_at_pop = open_squares(bool_grid(*visited), 8);
        let ghost len_after_pop = stack.len();
        let ghost c = (cx as int, cy as int);
        let mut j: usize = 0;
        while j < 4
            invariant
                m == bool_grid(*mask),
                z == bool_grid(*zone),
                in_region(m, s),
                !vp[s.1][s.0],
                consistent_marks(m, z, vp, out0),
                bool_grid(*out) == out0,
                j <= 4,
                c == (cx as int, cy as int),
                c == pt(cells@[cells@.len() - 1]),
                cells@.len() > 0,
                in_region(m, c),
                forall|x: int, y: int| on_board(x, y) ==> #[trigger] bool_grid(*visited)[y][x]
                    == (vp[y][x] || listed(stack@, (x, y)) || listed(cells@, (x, y))),
                forall|k: int| 0 <= k < stack@.len() ==> {
                    let e = #[trigger] pt(stack@[k]);
                    &&& in_region(m, e)
                    &&& !vp[e.1][e.0]
                    &&& linked(m, s, e)
                },
                forall|k: int| 0 <= k < cells@.len() ==> {
                    let e = #[trigger] pt(cells@[k]);
                    &&& in_region(m, e)
                    &&& !vp[e.1][e.0]
                    &&& linked(m, s, e)
                },
                forall|k: int| 0 <= k < cells@.len() - 1 ==>
                    neighbors_marked(m, bool_grid(*visited), #[trigger] pt(cells@[k]).0, pt(cells@[k]).1),
                forall|i: int| 0 <= i < j ==> #[trigger] marked_if_open(m, bool_grid(*visited), nbr(c.0, c.1, i)),
                listed(stack@, s) || listed(cells@, s),
                touches == exists|k: int| 0 <= k < cells@.len() && #[trigger] zone_at(z, cells@[k]),
                stack@.len() >= len_after_pop,
                open_squares(bool_grid(*visited), 8) + (stack@.len() - len_after_pop) == open_at_pop,
            decreases 4 - j,
        {
            let d = edge_offset(j);
            assert(on_board(cx as int, cy as int));
            let nx = cx + d.0;
            let ny = cy + d.1;
            proof {
                assert(nbr(c.0, c.1, j as int) == (nx as int, ny as int));
            }
            if in_bounds(nx, ny) && mask[ny as usize][nx as usize] && !visited[ny as usize][nx as usize] {
                let ghost v_before = bool_grid(*visited);
                let ghost stack_prev = stack@;
                proof {
                    assert(!bool_grid(*visited)[ny as int][nx as int]);
                }
                visited[ny as usize][nx as usize] = true;
                stack.push((nx, ny));
                proof {
                    let n = (nx as int, ny as int);
                    let v_after = bool_grid(*visited);
                    assert forall|x2: int, y2: int| on_board(x2, y2) implies #[trigger] v_after[y2][x2]
                        == (v_before[y2][x2] || (x2 == n.0 && y2 == n.1)) by {}
                    lemma_open_mark(v_before, v_after, n.0, n.1, 8);
                    lemma_listed_push(stack_prev, (nx, ny));
                    assert(pt(stack@[stack@.len() - 1]) == n);
                    assert(!vp[n.1][n.0]);
                    assert(in_region(m, n));
                    assert(adj4(c, n));
                    assert(linked(m, s, c));
                    lemma_linked_step(m, s, c, n);
                    assert forall|k: int| 0 <= k < stack@.len() implies {
                        let e = #[trigger] pt(stack@[k]);
                        &&& in_region(m, e)
                        &&& !vp[e.1][e.0]
                        &&& linked(m, s, e)
                    } by {
                        if k < stack_prev.len() {
                            assert(pt(stack_prev[k]) == pt(stack@[k]));
                        }
                    }
                    assert forall|k: int| 0 <= k < cells@.len() - 1 implies
                        neighbors_marked(m, v_after, #[trigger] pt(cells@[k]).0, pt(cells@[k]).1) by {
                        let e = pt(cells@[k]);
                        assert(neighbors_marked(m, v_before, e.0, e.1));
                        assert forall|i: int| 0 <= i < 4 implies #[trigger] marked_if_open(m, v_after, nbr(e.0, e.1, i)) by {
                            assert(marked_if_open(m, v_before, nbr(e.0, e.1, i)));
                        }
                    }
                    assert forall|i: int| 0 <= i < j + 1 implies #[trigger] marked_if_open(m, v_after, nbr(c.0, c.1, i)) by {
                        if i < j {
                            assert(marked_if_open(m, v_before, nbr(c.0, c.1, i)));
                        }
                    }
                    if listed(stack_prev, s) {
                        assert(listed(stack@, s));
                    }
                    lemma_open_squares_nonneg(v_after, 8);
                }
            } else {
                proof {
                    let n = (nx as int, ny as int);
                    if in_region(m, n) {
                        assert(bool_grid(*visited)[n.1][n.0]);
                    }
                    assert(marked_if_open(m, bool_grid(*visited), nbr(c.0, c.1, j as int)));
                }
            }
            j += 1;
        }
        proof {
            assert(neighbors_marked(m, bool_grid(*visited), c.0, c.1));
            lemma_open_squares_nonneg(bool_grid(*visited), 8);
        }
    }
    proof {
        lemma_listed_push(Seq::<(i32, i32)>::empty(), (0, 0));
        assert(!listed(stack@, s));
        lemma_region_done(m, z, vp, bool_grid(*visited), cells@, s, touches);
        assert(bool_grid(*visited)[s.1][s.0]);
        assert forall|x: int, y: int| on_board(x, y) && vp[y][x] implies #[trigger] bool_grid(*visited)[y][x] by {}
    }
    let ghost vfin = bool_grid(*visited);
    if touches {
        let mut i: usize = 0;
        while i < cells.len()
            invariant
                m == bool_grid(*mask),
                z == bool_grid(*zone),
                vfin == bool_grid(*visited),
                i <= cells@.len(),
                forall|k: int| 0 <= k < cells@.len() ==> on_board(#[trigger] pt(cells@[k]).0, pt(cells@[k]).1),
                forall|x: int, y: int| on_board(x, y) ==> #[trigger] bool_grid(*out)[y][x]
                    == (out0[y][x] || listed(cells@.subrange(0, i as int), (x, y))),
            decreases cells.len() - i,
        {
            let ghost o_before = bool_grid(*out);
            let (cx, cy) = cells[i];
            proof {
                assert(on_board(pt(cells@[i as int]).0, pt(cells@[i as int]).1));
            }
            out[cy as usize][cx as usize] = true;
            proof {
                assert(cells@.subrange(0, i + 1) =~= cells@.subrange(0, i as int).push(cells@[i as int]));
                lemma_listed_push(cells@.subrange(0, i as int), cells@[i as int]);
                assert forall|x: int, y: int| on_board(x, y) implies #[trigger] bool_grid(*out)[y][x]
                    == (out0[y][x] || listed(cells@.subrange(0, i + 1), (x, y))) by {
                    assert(bool_grid(*out)[y][x] == (o_before[y][x] || (x == cx && y == cy)));
                }
            }
            i += 1;
        }
        proof {
            assert(cells@.subrange(0, cells@.len() as int) =~= cells@);
        }
    }
    proof {
        let o = bool_grid(*out);
        assert forall|x: int, y: int| on_board(x, y) implies #[trigger] o[y][x] == (vfin[y][x] && reaches_zone(m, z, (x, y))) by {
            assert(out0[y][x] == (vp[y][x] && reaches_zone(m, z, (x, y))));
            if listed(cells@, (x, y)) {
                assert(touches == reaches_zone(m, z, (x, y)));
                let k = choose|k: int| 0 <= k < cells@.len() && #[trigger] pt(cells@[k]) == (x, y);
                assert(!vp[y][x]);
            }
        }
        assert forall|x: int, y: int| on_board(x, y) && old(visited)@[y]@[x] implies #[trigger] visited@[y]@[x] by {
            assert(vp[y][x]);
            assert(vfin[y][x]);
        }
        assert(vfin[sy as int][sx as int]);
    }
}

/// For each square, whether it is marked in `mask` and its four-connected
/// region of marked squares holds a square of `zone` (indexed [y][x]).
pub fn components_touching(mask: &[[bool; 8]; 8], zone: &[[bool; 8]; 8]) -> (r: [[bool; 8]; 8])
    ensures
        forall|x: int, y: int| on_board(x, y)
            ==> #[trigger] r@[y]@[x] == reaches_zone(bool_grid(*mask), bool_grid(*zone), (x, y)),
{
    let ghost m = bool_grid(*mask);
    let ghost z = bool_grid(*zone);
    let mut visited = [[false; 8]; 8];
    let mut out = [[false; 8]; 8];
    proof {
        let v = bool_grid(visited);
        assert forall|x: int, y: int| on_board(x, y) && v[y][x] implies #[trigger] neighbors_marked(m, v, x, y) by {}
        assert(consistent_marks(m, z, v, bool_grid(out)));
    }
    let mut sy: i32 = 0;
    while sy < 8
        invariant
            0 <= sy <= 8,
            m == bool_grid(*mask),
            z == bool_grid(*zone),
            consistent_marks(m, z, bool_grid(visited), bool_grid(out)),
            forall|x: int, y: int| on_board(x, y) && y < sy && m[y][x] ==> #[trigger] visited@[y]@[x],
        decreases 8 - sy,
    {
        let mut sx: i32 = 0;
        while sx < 8
            invariant
                0 <= sy < 8,
                0 <= sx <= 8,
                m == bool_grid(*mask),
                z == bool_grid(*zone),
                consistent_marks(m, z, bool_grid(visited), bool_grid(out)),
                forall|x: int, y: int| on_board(x, y) && (y < sy || (y == sy && x < sx)) && m[y][x]
                    ==> #[trigger] visited@[y]@[x],
            decreases 8 - sx,
        {
            if mask[sy as usize][sx as usize] && !visited[sy as usize][sx as usize] {
                flood_region(mask, zone, &mut visited, &mut out, sx, sy);
            }
            sx += 1;
        }
        sy += 1;
    }
    proof {
        let v = bool_grid(visited);
        let o = bool_grid(out);
        assert forall|x: int, y: int| on_board(x, y)
            implies #[trigger] out@[y]@[x] == reaches_zone(m, z, (x, y)) by {
            assert(o[y][x] == (v[y][x] && reaches_zone(m, z, (x, y))));
            if reaches_zone(m, z, (x, y)) {
                lemma_reaches_in_region(m, z, (x, y));
                assert(visited@[y]@[x]);
            }
        }
    }
    out
}

} // verus!
