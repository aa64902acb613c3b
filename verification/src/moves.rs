//! The sliding-move generator.
//!
//! For the active piece three rays are cast: the forward file and the two
//! forward diagonals, where forward is +y for White and -y for Black. A ray
//! is extended one cell at a time and ends at the board edge or at the first
//! occupied cell, which is itself excluded: an occupied square blocks, it is
//! never captured. The opening turn is the one exception: its rays ignore
//! occupancy and stop only at the board edge.

use vstd::prelude::*;

use crate::pieces::Side;

verus! {

/// An 8x8 occupancy snapshot: `occ[x][y]` tells whether any piece of either
/// side covers cell `(x, y)`.
pub open spec fn grid_wf(occ: Seq<Seq<bool>>) -> bool {
    occ.len() == 8 && forall|x: int| 0 <= x < 8 ==> (#[trigger] occ[x]).len() == 8
}

/// Cell `(x, y)` lies on the board.
pub open spec fn in_range(x: int, y: int) -> bool {
    0 <= x < 8 && 0 <= y < 8
}

/// A side's forward direction: +y for White, -y for Black.
pub open spec fn forward(side: Side) -> int {
    match side {
        Side::White => 1,
        Side::Black => -1,
    }
}

/// How many ray steps lead from row `py` to row `y` when each step moves the
/// row by `dy`. Rays always advance the row (`dy` is 1 or -1), so the row
/// determines the step count.
pub open spec fn ray_dist(py: int, dy: int, y: int) -> int {
    (y - py) * dy
}

/// Step `j` of the ray from `(px, py)` along `(dx, dy)` lands on the board.
pub open spec fn step_on_board(px: int, py: int, dx: int, dy: int, j: int) -> bool {
    in_range(px + j * dx, py + j * dy)
}

/// Step `j` of the ray lands on the board on an unoccupied cell.
pub open spec fn step_free(occ: Seq<Seq<bool>>, px: int, py: int, dx: int, dy: int, j: int) -> bool {
    step_on_board(px, py, dx, dy, j) && !occ[px + j * dx][py + j * dy]
}

/// `(x, y)` is reached by sliding from `(px, py)` along `(dx, dy)`: it is the
/// `k`-th cell of the ray for some `k >= 1`, and every step up to and
/// including `k` stays on the board and clear of pieces. The landed-on cell
/// itself must be free: there is no capture by landing.
pub open spec fn ray_reachable(
    occ: Seq<Seq<bool>>,
    px: int,
    py: int,
    dx: int,
    dy: int,
    x: int,
    y: int,
) -> bool {
    let k = ray_dist(py, dy, y);
    &&& 1 <= k
    &&& x == px + k * dx
    &&& y == py + k * dy
    &&& forall|j: int| 1 <= j <= k ==> #[trigger] step_free(occ, px, py, dx, dy, j)
}

/// `(x, y)` is reached by sliding from `(px, py)` along `(dx, dy)` with
/// occupancy ignored: every step up to it stays on the board.
pub open spec fn edge_reachable(px: int, py: int, dx: int, dy: int, x: int, y: int) -> bool {
    let k = ray_dist(py, dy, y);
    &&& 1 <= k
    &&& x == px + k * dx
    &&& y == py + k * dy
    &&& forall|j: int| 1 <= j <= k ==> #[trigger] step_on_board(px, py, dx, dy, j)
}

/// `(x, y)` is a legal destination for the active piece of `side` standing at
/// `(px, py)`: reachable along the forward file or one of the two forward
/// diagonals, with occupied cells blocking.
pub open spec fn legal_dest(
    occ: Seq<Seq<bool>>,
    side: Side,
    px: int,
    py: int,
    x: int,
    y: int,
) -> bool {
    ||| ray_reachable(occ, px, py, 0, forward(side), x, y)
    ||| ray_reachable(occ, px, py, -1, forward(side), x, y)
    ||| ray_reachable(occ, px, py, 1, forward(side), x, y)
}

/// `(x, y)` is a legal opening destination for a White piece standing at
/// `(px, py)` on the back row: the same three rays, limited only by the board
/// edge. Only White ever moves from the `Start` state.
pub open spec fn opening_dest(px: int, py: int, x: int, y: int) -> bool {
    ||| edge_reachable(px, py, 0, 1, x, y)
    ||| edge_reachable(px, py, -1, 1, x, y)
    ||| edge_reachable(px, py, 1, 1, x, y)
}

/// `ray_reachable` restricted to at most `b` steps.
spec fn ray_within(
    occ: Seq<Seq<bool>>,
    px: int,
    py: int,
    dx: int,
    dy: int,
    x: int,
    y: int,
    b: int,
) -> bool {
    ray_reachable(occ, px, py, dx, dy, x, y) && ray_dist(py, dy, y) <= b
}

/// `edge_reachable` restricted to at most `b` steps.
spec fn edge_within(px: int, py: int, dx: int, dy: int, x: int, y: int, b: int) -> bool {
    edge_reachable(px, py, dx, dy, x, y) && ray_dist(py, dy, y) <= b
}

/// Distributing one extra step over the step-count multiplication.
proof fn lemma_one_more_step(k: int, d: int)
    ensures
        (k + 1) * d == k * d + d,
{
    assert((k + 1) * d == k * d + d) by (nonlinear_arith);
}

/// Walking `k` steps of row delta `dy` and asking how many steps that took
/// gives `k` back, since `dy * dy == 1`.
proof fn lemma_ray_dist_inverse(py: int, dy: int, k: int)
    requires
        dy == -1 || dy == 1,
    ensures
        ray_dist(py, dy, py + k * dy) == k,
{
    assert((py + k * dy - py) * dy == k) by (nonlinear_arith)
        requires
            dy == -1 || dy == 1,
    ;
}

/// Walks one ray from `(px, py)` along `(dx, dy)` and collects every cell it
/// reaches, in step order. With `check_occ` the ray ends just before the
/// first occupied cell; without it (the opening exception) it runs to the
/// board edge and `occ` is ignored.
fn ray_moves(
    occ: &Vec<Vec<bool>>,
    px: usize,
    py: usize,
    dx: i8,
    dy: i8,
    check_occ: bool,
) -> (out: Vec<(usize, usize)>)
    requires
        check_occ ==> grid_wf(occ.deep_view()),
        px < 8,
        py < 8,
        dx == -1 || dx == 0 || dx == 1,
        dy == -1 || dy == 1,
    ensures
        check_occ ==> forall|c: (usize, usize)|
            #[trigger] out@.contains(c) <==> ray_reachable(
                occ.deep_view(),
                px as int,
                py as int,
                dx as int,
                dy as int,
                c.0 as int,
                c.1 as int,
            ),
        !check_occ ==> forall|c: (usize, usize)|
            #[trigger] out@.contains(c) <==> edge_reachable(
                px as int,
                py as int,
                dx as int,
                dy as int,
                c.0 as int,
                c.1 as int,
            ),
{
    let ghost g = occ.deep_view();
    let ghost ipx = px as int;
    let ghost ipy = py as int;
    let ghost idx = dx as int;
    let ghost idy = dy as int;
    let mut out: Vec<(usize, usize)> = Vec::new();
    let mut cx: usize = px;
    let mut cy: usize = py;
    let ghost mut k: int = 0;
    loop
        invariant_except_break
            check_occ ==> grid_wf(g),
            g == occ.deep_view(),
            px < 8,
            py < 8,
            dx == -1 || dx == 0 || dx == 1,
            dy == -1 || dy == 1,
            ipx == px as int && ipy == py as int && idx == dx as int && idy == dy as int,
            0 <= k <= 7,
            cx < 8,
            cy < 8,
            cx as int == ipx + k * idx,
            cy as int == ipy + k * idy,
            check_occ ==> forall|j: int| 1 <= j <= k ==> #[trigger] step_free(g, ipx, ipy, idx, idy, j),
            !check_occ ==> forall|j: int|
                1 <= j <= k ==> #[trigger] step_on_board(ipx, ipy, idx, idy, j),
            check_occ ==> forall|c: (usize, usize)|
                #[trigger] out@.contains(c) <==> ray_within(
                    g,
                    ipx,
                    ipy,
                    idx,
                    idy,
                    c.0 as int,
                    c.1 as int,
                    k,
                ),
            !check_occ ==> forall|c: (usize, usize)|
                #[trigger] out@.contains(c) <==> edge_within(
                    ipx,
                    ipy,
                    idx,
                    idy,
                    c.0 as int,
                    c.1 as int,
                    k,
                ),
        ensures
            check_occ ==> forall|c: (usize, usize)|
                #[trigger] out@.contains(c) <==> ray_reachable(
                    g,
                    ipx,
                    ipy,
                    idx,
                    idy,
                    c.0 as int,
                    c.1 as int,
                ),
            !check_occ ==> forall|c: (usize, usize)|
                #[trigger] out@.contains(c) <==> edge_reachable(
                    ipx,
                    ipy,
                    idx,
                    idy,
                    c.0 as int,
                    c.1 as int,
                ),
        decreases 8 - k,
    {
        proof {
            lemma_one_more_step(k, idx);
            lemma_one_more_step(k, idy);
        }
        // Find the next cell of the ray, stopping at the board edge.
        let mut off_board = false;
        let mut nx = cx;
        let mut ny = cy;
        if dx < 0 {
            if cx == 0 {
                off_board = true;
            } else {
                nx = cx - 1;
            }
        } else if dx > 0 {
            if cx == 7 {
                off_board = true;
            } else {
                nx = cx + 1;
            }
        }
        if dy < 0 {
            if cy == 0 {
                off_board = true;
            } else {
                ny = cy - 1;
            }
        } else {
            if cy == 7 {
                off_board = true;
            } else {
                ny = cy + 1;
            }
        }
        if off_board {
            proof {
                assert(!step_on_board(ipx, ipy, idx, idy, k + 1));
                lemma_halt_keeps_set(g, ipx, ipy, idx, idy, k, check_occ);
            }
            break;
        }
        if check_occ {
            proof {
                assert(g.len() == occ@.len());
                assert(g[nx as int] == occ@[nx as int].deep_view());
                assert(g[nx as int].len() == occ@[nx as int]@.len());
                assert(g[nx as int][ny as int] == occ@[nx as int]@[ny as int]);
            }
            let blocked = occ[nx][ny];
            if blocked {
                proof {
                    assert(!step_free(g, ipx, ipy, idx, idy, k + 1));
                    lemma_halt_keeps_set(g, ipx, ipy, idx, idy, k, check_occ);
                }
                break;
            }
        }
        let ghost pre = out@;
        out.push((nx, ny));
        cx = nx;
        cy = ny;
        proof {
            k = k + 1;
            assert(out@ == pre.push((nx, ny)));
            lemma_ray_dist_inverse(ipy, idy, k);
            assert(step_on_board(ipx, ipy, idx, idy, k));
            if check_occ {
                assert(step_free(g, ipx, ipy, idx, idy, k));
                assert forall|c: (usize, usize)| #[trigger]
                    out@.contains(c) <==> ray_within(
                        g,
                        ipx,
                        ipy,
                        idx,
                        idy,
                        c.0 as int,
                        c.1 as int,
                        k,
                    ) by {
                    lemma_push_contains(pre, (nx, ny), c);
                    if c == (nx, ny) {
                        assert(ray_within(g, ipx, ipy, idx, idy, c.0 as int, c.1 as int, k));
                    }
                    if ray_within(g, ipx, ipy, idx, idy, c.0 as int, c.1 as int, k) {
                        let kc = ray_dist(ipy, idy, c.1 as int);
                        if kc == k {
                            assert(c.0 as int == nx as int && c.1 as int == ny as int);
                            assert(c == (nx, ny));
                        }
                    }
                }
            } else {
                assert forall|c: (usize, usize)| #[trigger]
                    out@.contains(c) <==> edge_within(
                        ipx,
                        ipy,
                        idx,
                        idy,
                        c.0 as int,
                        c.1 as int,
                        k,
                    ) by {
                    lemma_push_contains(pre, (nx, ny), c);
                    if c == (nx, ny) {
                        assert(edge_within(ipx, ipy, idx, idy, c.0 as int, c.1 as int, k));
                    }
                    if edge_within(ipx, ipy, idx, idy, c.0 as int, c.1 as int, k) {
                        let kc = ray_dist(ipy, idy, c.1 as int);
                        if kc == k {
                            assert(c.0 as int == nx as int && c.1 as int == ny as int);
                            assert(c == (nx, ny));
                        }
                    }
                }
            }
        }
    }
    out
}

/// Every legal destination of the active piece of `side` standing at
/// `(px, py)`: the three forward rays walked under `occ`, each ending just
/// before the first occupied cell or at the board edge.
pub fn sliding_moves(occ: &Vec<Vec<bool>>, side: Side, px: usize, py: usize) -> (out: Vec<
    (usize, usize),
>)
    requires
        grid_wf(occ.deep_view()),
        px < 8,
        py < 8,
    ensures
        forall|c: (usize, usize)|
            #[trigger] out@.contains(c) <==> legal_dest(
                occ.deep_view(),
                side,
                px as int,
                py as int,
                c.0 as int,
                c.1 as int,
            ),
{
    let f: i8 = match side {
        Side::White => 1,
        Side::Black => -1,
    };
    let mut out = ray_moves(occ, px, py, 0, f, true);
    let mut left = ray_moves(occ, px, py, -1, f, true);
    let mut right = ray_moves(occ, px, py, 1, f, true);
    let ghost s0 = out@;
    let ghost s1 = left@;
    let ghost s2 = right@;
    out.append(&mut left);
    let ghost s01 = out@;
    out.append(&mut right);
    proof {
        assert(f as int == forward(side));
        assert forall|c: (usize, usize)| #[trigger]
            out@.contains(c) <==> legal_dest(
                occ.deep_view(),
                side,
                px as int,
                py as int,
                c.0 as int,
                c.1 as int,
            ) by {
            lemma_concat_contains(s01, s2, c);
            lemma_concat_contains(s0, s1, c);
        }
    }
    out
}

/// Every legal destination of the opening turn for the White piece standing
/// at `(px, py)`: the three forward rays limited only by the board edge,
/// occupancy ignored (the opening exception).
pub fn opening_moves(px: usize, py: usize) -> (out: Vec<(usize, usize)>)
    requires
        px < 8,
        py < 8,
    ensures
        forall|c: (usize, usize)|
            #[trigger] out@.contains(c) <==> opening_dest(
                px as int,
                py as int,
                c.0 as int,
                c.1 as int,
            ),
{
    let no_occ: Vec<Vec<bool>> = Vec::new();
    let mut out = ray_moves(&no_occ, px, py, 0, 1, false);
    let mut left = ray_moves(&no_occ, px, py, -1, 1, false);
    let mut right = ray_moves(&no_occ, px, py, 1, 1, false);
    let ghost s0 = out@;
    let ghost s1 = left@;
    let ghost s2 = right@;
    out.append(&mut left);
    let ghost s01 = out@;
    out.append(&mut right);
    proof {
        assert forall|c: (usize, usize)| #[trigger]
            out@.contains(c) <==> opening_dest(px as int, py as int, c.0 as int, c.1 as int) by {
            lemma_concat_contains(s01, s2, c);
            lemma_concat_contains(s0, s1, c);
        }
    }
    out
}

/// Every legal destination lies on the board and on exactly one of the three
/// rays from the piece's origin: the forward file if it shares the origin's
/// column, the left diagonal if its column is smaller, the right diagonal if
/// it is larger.
pub proof fn lemma_dest_on_one_ray(
    occ: Seq<Seq<bool>>,
    side: Side,
    px: int,
    py: int,
    x: int,
    y: int,
)
    requires
        legal_dest(occ, side, px, py, x, y),
    ensures
        in_range(x, y),
        ray_reachable(occ, px, py, 0, forward(side), x, y) <==> x == px,
        ray_reachable(occ, px, py, -1, forward(side), x, y) <==> x < px,
        ray_reachable(occ, px, py, 1, forward(side), x, y) <==> x > px,
{
    let f = forward(side);
    let k = ray_dist(py, f, y);
    if ray_reachable(occ, px, py, 0, f, x, y) {
        assert(step_free(occ, px, py, 0, f, k));
    }
    if ray_reachable(occ, px, py, -1, f, x, y) {
        assert(step_free(occ, px, py, -1, f, k));
    }
    if ray_reachable(occ, px, py, 1, f, x, y) {
        assert(step_free(occ, px, py, 1, f, k));
    }
}

/// The opening analogue: every opening destination lies on the board and on
/// exactly one of the three rays.
pub proof fn lemma_opening_dest_on_one_ray(px: int, py: int, x: int, y: int)
    requires
        opening_dest(px, py, x, y),
    ensures
        in_range(x, y),
        edge_reachable(px, py, 0, 1, x, y) <==> x == px,
        edge_reachable(px, py, -1, 1, x, y) <==> x < px,
        edge_reachable(px, py, 1, 1, x, y) <==> x > px,
{
    let k = ray_dist(py, 1, y);
    if edge_reachable(px, py, 0, 1, x, y) {
        assert(step_on_board(px, py, 0, 1, k));
    }
    if edge_reachable(px, py, -1, 1, x, y) {
        assert(step_on_board(px, py, -1, 1, k));
    }
    if edge_reachable(px, py, 1, 1, x, y) {
        assert(step_on_board(px, py, 1, 1, k));
    }
}

/// Ray generation halts at the first occupied cell, which is excluded: every
/// cell of the ray up to and including a reachable destination — in
/// particular every cell strictly between the destination and the piece's
/// origin — lies on the board and is unoccupied.
pub proof fn lemma_no_occupied_on_path(
    occ: Seq<Seq<bool>>,
    px: int,
    py: int,
    dx: int,
    dy: int,
    x: int,
    y: int,
    j: int,
)
    requires
        ray_reachable(occ, px, py, dx, dy, x, y),
        1 <= j <= ray_dist(py, dy, y),
    ensures
        in_range(px + j * dx, py + j * dy),
        !occ[px + j * dx][py + j * dy],
{
    assert(step_free(occ, px, py, dx, dy, j));
}

/// When step `k + 1` of the ray is blocked or off the board, the cells
/// reachable in at most `k` steps are all the reachable cells.
proof fn lemma_halt_keeps_set(
    g: Seq<Seq<bool>>,
    px: int,
    py: int,
    dx: int,
    dy: int,
    k: int,
    check_occ: bool,
)
    requires
        dy == -1 || dy == 1,
        0 <= k,
        check_occ ==> !step_free(g, px, py, dx, dy, k + 1),
        !check_occ ==> !step_on_board(px, py, dx, dy, k + 1),
    ensures
        check_occ ==> forall|x: int, y: int|
            ray_within(g, px, py, dx, dy, x, y, k) <==> #[trigger] ray_reachable(
                g,
                px,
                py,
                dx,
                dy,
                x,
                y,
            ),
        !check_occ ==> forall|x: int, y: int|
            edge_within(px, py, dx, dy, x, y, k) <==> #[trigger] edge_reachable(
                px,
                py,
                dx,
                dy,
                x,
                y,
            ),
{
    if check_occ {
        assert forall|x: int, y: int| #[trigger]
            ray_reachable(g, px, py, dx, dy, x, y) implies ray_within(
            g,
            px,
            py,
            dx,
            dy,
            x,
            y,
            k,
        ) by {
            let kc = ray_dist(py, dy, y);
            if kc > k {
                assert(step_free(g, px, py, dx, dy, k + 1));
            }
        }
    } else {
        assert forall|x: int, y: int| #[trigger]
            edge_reachable(px, py, dx, dy, x, y) implies edge_within(
            px,
            py,
            dx,
            dy,
            x,
            y,
            k,
        ) by {
            let kc = ray_dist(py, dy, y);
            if kc > k {
                assert(step_on_board(px, py, dx, dy, k + 1));
            }
        }
    }
}

/// Membership in a sequence extended by one element.
proof fn lemma_push_contains<T>(s: Seq<T>, v: T, c: T)
    ensures
        s.push(v).contains(c) <==> s.contains(c) || c == v,
{
    if s.push(v).contains(c) {
        let i = choose|i: int| 0 <= i < s.push(v).len() && s.push(v)[i] == c;
        if i < s.len() {
            assert(s[i] == c);
        }
    }
    if s.contains(c) {
        let i = choose|i: int| 0 <= i < s.len() && s[i] == c;
        assert(s.push(v)[i] == c);
    }
    if c == v {
        assert(s.push(v)[s.len() as int] == c);
    }
}

/// Membership in the concatenation of two sequences.
proof fn lemma_concat_contains<T>(a: Seq<T>, b: Seq<T>, c: T)
    ensures
        (a + b).contains(c) <==> a.contains(c) || b.contains(c),
{
    if (a + b).contains(c) {
        let i = choose|i: int| 0 <= i < (a + b).len() && (a + b)[i] == c;
        if i < a.len() {
            assert(a[i] == c);
        } else {
            assert(b[i - a.len()] == c);
        }
    }
    if a.contains(c) {
        let i = choose|i: int| 0 <= i < a.len() && a[i] == c;
        assert((a + b)[i] == c);
    }
    if b.contains(c) {
        let i = choose|i: int| 0 <= i < b.len() && b[i] == c;
        assert((a + b)[a.len() + i] == c);
    }
}

} // verus!
