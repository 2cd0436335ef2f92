//! The integer line-rasterization model.
//!
//! `line_pts` gives, as a mathematical sequence, exactly the pixels that
//! `Canvas::line` plots between two (already clamped) endpoints: the classic
//! error-accumulator walk with `dx = |x2 - x1|`, `dy = -|y2 - y1|`, step
//! signs toward the second endpoint and initial error `dx + dy`. The lemmas
//! here prove the path properties: it starts at the first endpoint, ends at
//! the second, moves one king-step at a time, and never visits a pixel
//! twice.

use vstd::prelude::*;

verus! {

/// The absolute value.
pub open spec fn absv(v: int) -> int {
    if v < 0 {
        -v
    } else {
        v
    }
}

/// The sign of `v`: -1, 0 or 1.
pub open spec fn signum(v: int) -> int {
    if v < 0 {
        -1
    } else if v == 0 {
        0
    } else {
        1
    }
}

/// Squaring ignores sign.
pub proof fn lemma_abs_square(a: int)
    ensures
        absv(a) * absv(a) == a * a,
{
    assert(absv(a) * absv(a) == a * a) by (nonlinear_arith);
}

/// `m` lies (weakly) between `a` and `b`.
pub open spec fn betw(a: int, m: int, b: int) -> bool {
    (a <= m <= b) || (b <= m <= a)
}

/// `q` is one king-move away from `p`: at most one step along each axis, and
/// not the same pixel.
pub open spec fn step8(p: (int, int), q: (int, int)) -> bool {
    absv(q.0 - p.0) <= 1 && absv(q.1 - p.1) <= 1 && q != p
}

/// The walk's bookkeeping invariant, at a state `(x, y, err)` heading for
/// `(x2, y2)`. `dx`, `dy`, `sx`, `sy` are the constants of the walk. The last
/// conjunct pins the accumulated error exactly: starting from `dx + dy`, each
/// x-step has added `dy` and each y-step has added `dx`, and the number of
/// steps taken along each axis can be read off the remaining distance.
pub open spec fn bres_wf(
    x: int,
    y: int,
    err: int,
    x2: int,
    y2: int,
    dx: int,
    dy: int,
    sx: int,
    sy: int,
) -> bool {
    &&& 0 <= dx
    &&& dy <= 0
    &&& (x != x2 ==> sx == signum(x2 - x))
    &&& (y != y2 ==> sy == signum(y2 - y))
    &&& absv(x2 - x) <= dx
    &&& absv(y2 - y) <= -dy
    &&& err == dx + dy + (-dy - absv(y2 - y)) * dx + (dx - absv(x2 - x)) * dy
}

/// The pixels the walk plots from state `(x, y, err)` on, in order, ending
/// with the pixel at which it breaks. This mirrors the executable loop: plot,
/// then compare twice the error against `dy` and `dx` to decide the steps,
/// breaking when the axis that is about to step has already reached its
/// target.
pub open spec fn bres_pts(
    x: int,
    y: int,
    err: int,
    x2: int,
    y2: int,
    dx: int,
    dy: int,
    sx: int,
    sy: int,
) -> Seq<(int, int)>
    decreases absv(x2 - x) + absv(y2 - y),
        when (x != x2 ==> sx == signum(x2 - x)) && (y != y2 ==> sy == signum(y2 - y))
{
    let e = 2 * err;
    if e >= dy {
        if x == x2 {
            seq![(x, y)]
        } else if e <= dx {
            if y == y2 {
                seq![(x, y)]
            } else {
                seq![(x, y)] + bres_pts(x + sx, y + sy, err + dy + dx, x2, y2, dx, dy, sx, sy)
            }
        } else {
            seq![(x, y)] + bres_pts(x + sx, y, err + dy, x2, y2, dx, dy, sx, sy)
        }
    } else {
        if y == y2 {
            seq![(x, y)]
        } else {
            seq![(x, y)] + bres_pts(x, y + sy, err + dx, x2, y2, dx, dy, sx, sy)
        }
    }
}

/// The pixels plotted by a line from `(x1, y1)` to `(x2, y2)`, both already
/// inside the canvas.
pub open spec fn line_pts(x1: int, y1: int, x2: int, y2: int) -> Seq<(int, int)> {
    bres_pts(
        x1,
        y1,
        absv(x2 - x1) - absv(y2 - y1),
        x2,
        y2,
        absv(x2 - x1),
        -absv(y2 - y1),
        signum(x2 - x1),
        signum(y2 - y1),
    )
}

/// The bookkeeping invariant holds at the start of the walk.
pub proof fn lemma_line_pts_wf(x1: int, y1: int, x2: int, y2: int)
    ensures
        bres_wf(
            x1,
            y1,
            absv(x2 - x1) - absv(y2 - y1),
            x2,
            y2,
            absv(x2 - x1),
            -absv(y2 - y1),
            signum(x2 - x1),
            signum(y2 - y1),
        ),
{
    let dx = absv(x2 - x1);
    let dy = -absv(y2 - y1);
    assert((-dy - absv(y2 - y1)) * dx == 0 && (dx - absv(x2 - x1)) * dy == 0)
        by (nonlinear_arith)
        requires
            dy == -absv(y2 - y1),
            dx == absv(x2 - x1),
    ;
}

/// An x-step (adding `dy` to the error) preserves the invariant.
pub proof fn lemma_bres_wf_step_x(
    x: int,
    y: int,
    err: int,
    x2: int,
    y2: int,
    dx: int,
    dy: int,
    sx: int,
    sy: int,
)
    requires
        bres_wf(x, y, err, x2, y2, dx, dy, sx, sy),
        x != x2,
    ensures
        bres_wf(x + sx, y, err + dy, x2, y2, dx, dy, sx, sy),
{
    let a = absv(x2 - x);
    assert(absv(x2 - (x + sx)) == a - 1);
    assert((dx - (a - 1)) * dy == (dx - a) * dy + dy) by (nonlinear_arith);
}

/// A y-step (adding `dx` to the error) preserves the invariant.
pub proof fn lemma_bres_wf_step_y(
    x: int,
    y: int,
    err: int,
    x2: int,
    y2: int,
    dx: int,
    dy: int,
    sx: int,
    sy: int,
)
    requires
        bres_wf(x, y, err, x2, y2, dx, dy, sx, sy),
        y != y2,
    ensures
        bres_wf(x, y + sy, err + dx, x2, y2, dx, dy, sx, sy),
{
    let b = absv(y2 - y);
    assert(absv(y2 - (y + sy)) == b - 1);
    assert((-dy - (b - 1)) * dx == (-dy - b) * dx + dx) by (nonlinear_arith);
}

/// When the walk's x-coordinate has arrived and twice the error is at least
/// `dy`, the y-coordinate has arrived as well: the walk never breaks early on
/// the x-guard.
pub proof fn lemma_bres_x_done(
    x: int,
    y: int,
    err: int,
    x2: int,
    y2: int,
    dx: int,
    dy: int,
    sx: int,
    sy: int,
)
    requires
        bres_wf(x, y, err, x2, y2, dx, dy, sx, sy),
        x == x2,
        2 * err >= dy,
    ensures
        y == y2,
{
    let b = absv(y2 - y);
    if y != y2 {
        assert(b >= 1 && dy <= -1);
        if dx == 0 {
            assert((-dy - b) * dx == 0 && (dx - 0) * dy == 0) by (nonlinear_arith)
                requires
                    dx == 0,
            ;
            assert(err == dy);
        } else {
            assert((-dy - b) * dx <= (-dy - 1) * dx) by (nonlinear_arith)
                requires
                    b >= 1,
                    dx >= 0,
            ;
            assert((-dy - 1) * dx + (dx - 0) * dy == -dx) by (nonlinear_arith);
            assert(err <= dx + dy + -dx == dy);
        }
        assert(2 * err <= 2 * dy < dy);
    }
}

/// When the walk's y-coordinate has arrived but the x-coordinate has not,
/// twice the error exceeds `dx`: the walk never breaks early on the y-guard,
/// and keeps stepping in x.
pub proof fn lemma_bres_y_done(
    x: int,
    y: int,
    err: int,
    x2: int,
    y2: int,
    dx: int,
    dy: int,
    sx: int,
    sy: int,
)
    requires
        bres_wf(x, y, err, x2, y2, dx, dy, sx, sy),
        y == y2,
        x != x2,
    ensures
        2 * err > dx,
{
    let a = absv(x2 - x);
    assert(a >= 1 && dx >= 1);
    assert((dx - a) * dy >= (dx - 1) * dy) by (nonlinear_arith)
        requires
            a >= 1,
            dy <= 0,
    ;
    assert((-dy - 0) * dx + (dx - 1) * dy == -dy) by (nonlinear_arith);
    assert(err >= dx + dy + -dy == dx);
}

/// Prepending the current pixel to the path plotted from the next state
/// keeps every path property, provided the next state is one king-step from
/// the current pixel, strictly toward the endpoint on at least one axis.
proof fn lemma_path_cons(
    x: int,
    y: int,
    nx: int,
    ny: int,
    x2: int,
    y2: int,
    pts: Seq<(int, int)>,
    tail: Seq<(int, int)>,
)
    requires
        pts == seq![(x, y)] + tail,
        tail.len() >= 1,
        tail[0] == (nx, ny),
        tail[tail.len() - 1] == (x2, y2),
        forall|k: int|
            0 <= k < tail.len() ==> betw(nx, (#[trigger] tail[k]).0, x2) && betw(
                ny,
                tail[k].1,
                y2,
            ),
        forall|k: int| 0 <= k < tail.len() - 1 ==> step8(tail[k], #[trigger] tail[k + 1]),
        forall|i: int, j: int| 0 <= i < j < tail.len() ==> tail[i] != tail[j],
        absv(nx - x) <= 1,
        absv(ny - y) <= 1,
        nx == x || (x < nx && nx <= x2) || (x2 <= nx && nx < x),
        ny == y || (y < ny && ny <= y2) || (y2 <= ny && ny < y),
        (nx, ny) != (x, y),
    ensures
        pts.len() >= 1,
        pts[0] == (x, y),
        pts[pts.len() - 1] == (x2, y2),
        forall|k: int|
            0 <= k < pts.len() ==> betw(x, (#[trigger] pts[k]).0, x2) && betw(y, pts[k].1, y2),
        forall|k: int| 0 <= k < pts.len() - 1 ==> step8(pts[k], #[trigger] pts[k + 1]),
        forall|i: int, j: int| 0 <= i < j < pts.len() ==> pts[i] != pts[j],
{
    assert(pts[0] == (x, y));
    assert(pts[pts.len() - 1] == tail[tail.len() - 1]);
    assert forall|k: int|
        0 <= k < pts.len() implies betw(x, (#[trigger] pts[k]).0, x2) && betw(
        y,
        pts[k].1,
        y2,
    ) by {
        if k >= 1 {
            assert(pts[k] == tail[k - 1]);
            assert(betw(nx, tail[k - 1].0, x2) && betw(ny, tail[k - 1].1, y2));
        }
    }
    assert forall|k: int| 0 <= k < pts.len() - 1 implies step8(pts[k], #[trigger] pts[k + 1]) by {
        if k == 0 {
            assert(pts[1] == tail[0]);
        } else {
            assert(pts[k] == tail[k - 1] && pts[k + 1] == tail[k]);
            assert(step8(tail[k - 1], tail[k - 1 + 1]));
        }
    }
    assert forall|i: int, j: int| 0 <= i < j < pts.len() implies pts[i] != pts[j] by {
        if i == 0 {
            assert(pts[j] == tail[j - 1]);
            assert(betw(nx, tail[j - 1].0, x2) && betw(ny, tail[j - 1].1, y2));
            if nx != x {
                assert(tail[j - 1].0 != x);
            } else {
                assert(tail[j - 1].1 != y);
            }
        } else {
            assert(pts[i] == tail[i - 1] && pts[j] == tail[j - 1]);
        }
    }
}

/// From any state satisfying the bookkeeping invariant, the walk plots a
/// connected 8-adjacent path that starts at the current pixel, ends exactly
/// at the endpoint, stays between the two on both axes, and visits no pixel
/// twice.
pub proof fn lemma_bres_props(
    x: int,
    y: int,
    err: int,
    x2: int,
    y2: int,
    dx: int,
    dy: int,
    sx: int,
    sy: int,
)
    requires
        bres_wf(x, y, err, x2, y2, dx, dy, sx, sy),
    ensures
        ({
            let pts = bres_pts(x, y, err, x2, y2, dx, dy, sx, sy);
            &&& pts.len() >= 1
            &&& pts[0] == (x, y)
            &&& pts[pts.len() - 1] == (x2, y2)
            &&& forall|k: int|
                0 <= k < pts.len() ==> betw(x, (#[trigger] pts[k]).0, x2) && betw(
                    y,
                    pts[k].1,
                    y2,
                )
            &&& forall|k: int| 0 <= k < pts.len() - 1 ==> step8(pts[k], #[trigger] pts[k + 1])
            &&& forall|i: int, j: int| 0 <= i < j < pts.len() ==> pts[i] != pts[j]
        }),
    decreases absv(x2 - x) + absv(y2 - y),
{
    let pts = bres_pts(x, y, err, x2, y2, dx, dy, sx, sy);
    let e = 2 * err;
    if e >= dy {
        if x == x2 {
            lemma_bres_x_done(x, y, err, x2, y2, dx, dy, sx, sy);
            assert(pts =~= seq![(x, y)]);
        } else if e <= dx {
            if y == y2 {
                lemma_bres_y_done(x, y, err, x2, y2, dx, dy, sx, sy);
                assert(false);
            } else {
                lemma_bres_wf_step_x(x, y, err, x2, y2, dx, dy, sx, sy);
                lemma_bres_wf_step_y(x + sx, y, err + dy, x2, y2, dx, dy, sx, sy);
                lemma_bres_props(x + sx, y + sy, err + dy + dx, x2, y2, dx, dy, sx, sy);
                let tail = bres_pts(x + sx, y + sy, err + dy + dx, x2, y2, dx, dy, sx, sy);
                assert(pts =~= seq![(x, y)] + tail);
                lemma_path_cons(x, y, x + sx, y + sy, x2, y2, pts, tail);
            }
        } else {
            lemma_bres_wf_step_x(x, y, err, x2, y2, dx, dy, sx, sy);
            lemma_bres_props(x + sx, y, err + dy, x2, y2, dx, dy, sx, sy);
            let tail = bres_pts(x + sx, y, err + dy, x2, y2, dx, dy, sx, sy);
            assert(pts =~= seq![(x, y)] + tail);
            lemma_path_cons(x, y, x + sx, y, x2, y2, pts, tail);
        }
    } else {
        if y == y2 {
            if x != x2 {
                lemma_bres_y_done(x, y, err, x2, y2, dx, dy, sx, sy);
                assert(false);
            }
            assert(pts =~= seq![(x, y)]);
        } else {
            lemma_bres_wf_step_y(x, y, err, x2, y2, dx, dy, sx, sy);
            lemma_bres_props(x, y + sy, err + dx, x2, y2, dx, dy, sx, sy);
            let tail = bres_pts(x, y + sy, err + dx, x2, y2, dx, dy, sx, sy);
            assert(pts =~= seq![(x, y)] + tail);
            lemma_path_cons(x, y, x, y + sy, x2, y2, pts, tail);
        }
    }
}

/// Law: the pixels of a rasterized line form a connected path: the walk
/// starts at the first endpoint, ends at the second, moves to an
/// 8-adjacent pixel at each step, stays inside the bounding box of the two
/// endpoints, and plots no pixel twice.
pub proof fn lemma_line_path(x1: int, y1: int, x2: int, y2: int)
    ensures
        ({
            let pts = line_pts(x1, y1, x2, y2);
            &&& pts.len() >= 1
            &&& pts[0] == (x1, y1)
            &&& pts[pts.len() - 1] == (x2, y2)
            &&& forall|k: int|
                0 <= k < pts.len() ==> betw(x1, (#[trigger] pts[k]).0, x2) && betw(
                    y1,
                    pts[k].1,
                    y2,
                )
            &&& forall|k: int| 0 <= k < pts.len() - 1 ==> step8(pts[k], #[trigger] pts[k + 1])
            &&& forall|i: int, j: int| 0 <= i < j < pts.len() ==> pts[i] != pts[j]
        }),
{
    lemma_line_pts_wf(x1, y1, x2, y2);
    lemma_bres_props(
        x1,
        y1,
        absv(x2 - x1) - absv(y2 - y1),
        x2,
        y2,
        absv(x2 - x1),
        -absv(y2 - y1),
        signum(x2 - x1),
        signum(y2 - y1),
    );
}

/// Law: a degenerate line, with both endpoints equal, plots exactly one
/// pixel, at that coordinate.
pub proof fn lemma_line_degenerate(x: int, y: int)
    ensures
        line_pts(x, y, x, y) == seq![(x, y)],
{
    assert(line_pts(x, y, x, y) =~= seq![(x, y)]);
}

} // verus!

