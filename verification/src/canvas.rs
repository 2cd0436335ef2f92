//! The canvas: a grid of packed color values with in-place drawing operations.
//!
//! The grid is stored as one flat vector of `width * height` pixels in
//! row-major order; the pixel at column `x` of row `y` sits at index
//! `y * width + x`. Every drawing operation clamps incoming coordinates to the
//! canvas bounds before touching the grid, so the operations are total: no
//! input makes them read or write out of bounds.

use crate::bresenham::absv;
use crate::bresenham::betw;
use crate::bresenham::bres_pts;
use crate::bresenham::bres_wf;
use crate::bresenham::lemma_abs_square;
use crate::bresenham::lemma_bres_wf_step_x;
use crate::bresenham::lemma_bres_wf_step_y;
use crate::bresenham::lemma_line_pts_wf;
use crate::bresenham::line_pts;
use crate::bresenham::signum;
use crate::ppm::body_of;
use crate::ppm::header_of;
use crate::ppm::lemma_blank_body;
use crate::ppm::lemma_filled_body;
use crate::ppm::ppm_of;
use crate::ppm::push_decimal;
use crate::ppm::rgb_triple;
use vstd::prelude::*;

verus! {

/// A coordinate or size clamped to the closed range `[lo, hi]`.
pub open spec fn clamped(v: int, lo: int, hi: int) -> int {
    if v < lo {
        lo
    } else if v > hi {
        hi
    } else {
        v
    }
}

/// The grid laid out row-major: a pixel at column `x`, row `y` of a
/// `w`-by-`h` canvas has a flat index inside the grid.
pub proof fn lemma_flat_index(w: int, h: int, x: int, y: int)
    requires
        1 <= w,
        1 <= h,
        0 <= x < w,
        0 <= y < h,
    ensures
        0 <= y * w + x < w * h,
{
    assert(y * w + x < w * h) by (nonlinear_arith)
        requires
            1 <= w,
            1 <= h,
            0 <= x < w,
            0 <= y < h,
    ;
    assert(0 <= y * w) by (nonlinear_arith)
        requires
            0 <= y,
            0 <= w,
    ;
}

/// Clamps `v` to the closed range `[lo, hi]`.
fn clamp_i128(v: i128, lo: i128, hi: i128) -> (r: i128)
    requires
        lo <= hi,
    ensures
        r == clamped(v as int, lo as int, hi as int),
{
    if v < lo {
        lo
    } else if v > hi {
        hi
    } else {
        v
    }
}

/// The pixels covered by `fill_rect(color, x0, y0, rw, rh)` on a `w`-by-`h`
/// canvas: the half-open range between the clamped corners. The corners are
/// clamped to `[0, w-1]` and `[0, h-1]` (not to `w` and `h`), so a rectangle
/// that would cover the whole canvas still leaves the last column and row
/// out, and one entirely on the negative side collapses to an empty range
/// near the origin. This is the fixed policy of the format, not a bug.
pub open spec fn in_rect_region(
    w: int,
    h: int,
    x0: int,
    y0: int,
    rw: int,
    rh: int,
    x: int,
    y: int,
) -> bool {
    &&& clamped(x0, 0, w - 1) <= x < clamped(x0 + rw, 0, w - 1)
    &&& clamped(y0, 0, h - 1) <= y < clamped(y0 + rh, 0, h - 1)
}

/// The pixels covered by `fill_circle(color, x0, y0, r)` on a `w`-by-`h`
/// canvas: a pixel inside the bounding box of the disk — its corners clamped
/// exactly as in `in_rect_region`, with the same collapse for centers far
/// outside the canvas — whose squared distance to the center is strictly
/// below `r * r`. Pixels exactly on the boundary circle are excluded.
pub open spec fn in_disk_region(
    w: int,
    h: int,
    x0: int,
    y0: int,
    r: int,
    x: int,
    y: int,
) -> bool {
    &&& clamped(x0 - r, 0, w - 1) <= x < clamped(x0 + r, 0, w - 1)
    &&& clamped(y0 - r, 0, h - 1) <= y < clamped(y0 + r, 0, h - 1)
    &&& (x - x0) * (x - x0) + (y - y0) * (y - y0) < r * r
}

/// The inverse of the row-major layout: a flat index `i` belongs to column
/// `i % w` of row `i / w`.
pub proof fn lemma_flat_index_inv(w: int, h: int, i: int)
    requires
        1 <= w,
        1 <= h,
        0 <= i < w * h,
    ensures
        0 <= i % w < w,
        0 <= i / w < h,
        i == (i / w) * w + i % w,
{
    assert(i == w * (i / w) + i % w && 0 <= i % w < w) by (nonlinear_arith)
        requires
            1 <= w,
            0 <= i,
    ;
    assert(0 <= i / w && i / w < h) by (nonlinear_arith)
        requires
            i == w * (i / w) + i % w,
            0 <= i % w < w,
            0 <= i < w * h,
            1 <= w,
    ;
}

/// An in-memory pixel canvas of fixed dimensions.
///
/// A pixel holds a packed color: serialization reads its three
/// least-significant bytes as red, green, blue (low byte first) and discards
/// the high byte.
pub struct Canvas {
    pixels: Vec<u32>,
    width: usize,
    height: usize,
}

impl Canvas {
    /// The canvas width in pixels.
    pub closed spec fn w(&self) -> int {
        self.width as int
    }

    /// The canvas height in pixels.
    pub closed spec fn h(&self) -> int {
        self.height as int
    }

    /// The pixel grid as a flat row-major sequence of length `w * h`.
    pub closed spec fn grid(&self) -> Seq<u32> {
        self.pixels@
    }

    /// The color of the pixel at column `x`, row `y`.
    pub open spec fn pixel(&self, x: int, y: int) -> u32 {
        self.grid()[y * self.w() + x]
    }

    /// Well-formedness: positive dimensions, a grid of exactly
    /// `width * height` pixels, and dimensions small enough that the
    /// serialized body of `3 * width * height` bytes has a representable
    /// length. Constructors establish this and every operation preserves it.
    pub closed spec fn wf(&self) -> bool {
        &&& 1 <= self.width
        &&& 1 <= self.height
        &&& self.pixels@.len() == self.width * self.height
        &&& 3 * (self.width * self.height) <= usize::MAX
    }

    /// Creates a canvas of the given positive dimensions with every pixel
    /// set to 0.
    pub fn new(width: usize, height: usize) -> (c: Canvas)
        requires
            1 <= width,
            1 <= height,
            3 * (width * height) <= usize::MAX,
        ensures
            c.wf(),
            c.w() == width,
            c.h() == height,
            forall|x: int, y: int|
                0 <= x < width && 0 <= y < height ==> #[trigger] c.pixel(x, y) == 0,
    {
        proof {
            assert(width * height <= 3 * (width * height)) by (nonlinear_arith)
                requires
                    1 <= width,
                    1 <= height,
            ;
        }
        let pixels = vec![0u32; width * height];
        let c = Canvas { pixels, width, height };
        proof {
            assert forall|x: int, y: int|
                0 <= x < width && 0 <= y < height implies #[trigger] c.pixel(x, y) == 0 by {
                lemma_flat_index(width as int, height as int, x, y);
            }
        }
        c
    }

    /// The canvas width, as a plain value.
    pub fn width(&self) -> (r: usize)
        ensures
            r == self.w(),
    {
        self.width
    }

    /// The canvas height, as a plain value.
    pub fn height(&self) -> (r: usize)
        ensures
            r == self.h(),
    {
        self.height
    }

    /// Sets every pixel of the grid to `color`.
    pub fn fill(&mut self, color: u32)
        requires
            old(self).wf(),
        ensures
            final(self).wf(),
            final(self).w() == old(self).w(),
            final(self).h() == old(self).h(),
            final(self).grid() == Seq::new(old(self).grid().len(), |i: int| color),
            forall|x: int, y: int|
                0 <= x < final(self).w() && 0 <= y < final(self).h()
                    ==> #[trigger] final(self).pixel(x, y) == color,
    {
        let n = self.pixels.len();
        let mut i: usize = 0;
        while i < n
            invariant
                i <= n,
                n == old(self).grid().len(),
                self.width == old(self).width,
                self.height == old(self).height,
                self.pixels@.len() == n,
                forall|j: int| 0 <= j < i ==> self.pixels@[j] == color,
            decreases n - i,
        {
            self.pixels[i] = color;
            i = i + 1;
        }
        proof {
            assert(self.grid() =~= Seq::new(old(self).grid().len(), |i: int| color));
            assert forall|x: int, y: int|
                0 <= x < self.w() && 0 <= y < self.h()
                    implies #[trigger] self.pixel(x, y) == color by {
                lemma_flat_index(self.w(), self.h(), x, y);
            }
        }
    }

    /// Fills the rectangle of size `w`-by-`h` whose top-left corner is
    /// `(x0, y0)`. Both corners are clamped to the canvas bounds first (see
    /// `in_rect_region`), so any coordinates are accepted.
    pub fn fill_rect(&mut self, color: u32, x0: i64, y0: i64, w: usize, h: usize)
        requires
            old(self).wf(),
        ensures
            final(self).wf(),
            final(self).w() == old(self).w(),
            final(self).h() == old(self).h(),
            forall|x: int, y: int|
                0 <= x < old(self).w() && 0 <= y < old(self).h()
                    ==> #[trigger] final(self).pixel(x, y) == (if in_rect_region(
                        old(self).w(),
                        old(self).h(),
                        x0 as int,
                        y0 as int,
                        w as int,
                        h as int,
                        x,
                        y,
                    ) {
                        color
                    } else {
                        old(self).pixel(x, y)
                    }),
    {
        let wm1 = (self.width - 1) as i128;
        let hm1 = (self.height - 1) as i128;
        let x1 = clamp_i128(x0 as i128, 0, wm1) as usize;
        let y1 = clamp_i128(y0 as i128, 0, hm1) as usize;
        let x2 = clamp_i128(x0 as i128 + w as i128, 0, wm1) as usize;
        let y2 = clamp_i128(y0 as i128 + h as i128, 0, hm1) as usize;
        let mut y = y1;
        while y < y2
            invariant
                self.wf(),
                self.width == old(self).width,
                self.height == old(self).height,
                x1 == clamped(x0 as int, 0, self.w() - 1),
                y1 == clamped(y0 as int, 0, self.h() - 1),
                x2 == clamped(x0 as int + w as int, 0, self.w() - 1),
                y2 == clamped(y0 as int + h as int, 0, self.h() - 1),
                y1 <= y,
                y <= y2 || y == y1,
                forall|xx: int, yy: int|
                    0 <= xx < self.w() && 0 <= yy < self.h()
                        ==> #[trigger] self.pixel(xx, yy) == (if x1 <= xx < x2 && y1 <= yy
                            < y {
                            color
                        } else {
                            old(self).pixel(xx, yy)
                        }),
            decreases y2 - y,
        {
            let mut x = x1;
            while x < x2
                invariant
                    self.wf(),
                    self.width == old(self).width,
                    self.height == old(self).height,
                    x1 <= x,
                    x <= x2 || x == x1,
                    x2 <= self.w() - 1,
                    y1 <= y < y2,
                    y2 <= self.h() - 1,
                    forall|xx: int, yy: int|
                        0 <= xx < self.w() && 0 <= yy < self.h()
                            ==> #[trigger] self.pixel(xx, yy) == (if (x1 <= xx < x2 && y1 <= yy
                                < y) || (yy == y && x1 <= xx < x) {
                                color
                            } else {
                                old(self).pixel(xx, yy)
                            }),
                decreases x2 - x,
            {
                proof {
                    lemma_flat_index(self.w(), self.h(), x as int, y as int);
                }
                let ghost pre = *self;
                self.pixels[y * self.width + x] = color;
                x = x + 1;
                proof {
                    assert forall|xx: int, yy: int|
                        0 <= xx < self.w() && 0 <= yy < self.h()
                            implies #[trigger] self.pixel(xx, yy) == (if (x1 <= xx < x2 && y1 <= yy
                            < y) || (yy == y && x1 <= xx < x) {
                            color
                        } else {
                            old(self).pixel(xx, yy)
                        }) by {
                        lemma_flat_index(self.w(), self.h(), xx, yy);
                        if yy == y && xx == x - 1 {
                            assert(self.pixel(xx, yy) == color);
                        } else {
                            assert(yy * pre.w() + xx != y * pre.w() + (x - 1)) by (nonlinear_arith)
                                requires
                                    !(yy == y && xx == x - 1),
                                    0 <= xx < pre.w(),
                                    0 <= x - 1 < pre.w(),
                                    0 <= yy,
                                    0 <= y,
                            ;
                            assert(self.pixel(xx, yy) == pre.pixel(xx, yy));
                        }
                    }
                }
            }
            y = y + 1;
        }
    }

    /// Draws a one-pixel-wide line from `(x1, y1)` to `(x2, y2)` by integer
    /// (Bresenham) rasterization. Each endpoint coordinate is independently
    /// clamped to the canvas bounds before rasterization begins, so a line
    /// partly outside the canvas has its endpoints pulled to the border
    /// first; that can change the slope and is the intended policy, not true
    /// clipping. The pixels painted are exactly `line_pts` of the clamped
    /// endpoints.
    pub fn line(&mut self, color: u32, x1: i64, y1: i64, x2: i64, y2: i64)
        requires
            old(self).wf(),
        ensures
            final(self).wf(),
            final(self).w() == old(self).w(),
            final(self).h() == old(self).h(),
            forall|x: int, y: int|
                0 <= x < old(self).w() && 0 <= y < old(self).h()
                    ==> #[trigger] final(self).pixel(x, y) == (if line_pts(
                        clamped(x1 as int, 0, old(self).w() - 1),
                        clamped(y1 as int, 0, old(self).h() - 1),
                        clamped(x2 as int, 0, old(self).w() - 1),
                        clamped(y2 as int, 0, old(self).h() - 1),
                    ).contains((x, y)) {
                        color
                    } else {
                        old(self).pixel(x, y)
                    }),
    {
        let wm1 = (self.width - 1) as i128;
        let hm1 = (self.height - 1) as i128;
        let cx1 = clamp_i128(x1 as i128, 0, wm1);
        let cy1 = clamp_i128(y1 as i128, 0, hm1);
        let cx2 = clamp_i128(x2 as i128, 0, wm1);
        let cy2 = clamp_i128(y2 as i128, 0, hm1);
        let dxv: i128 = if cx2 >= cx1 {
            cx2 - cx1
        } else {
            cx1 - cx2
        };
        let dyv: i128 = if cy2 >= cy1 {
            cy1 - cy2
        } else {
            cy2 - cy1
        };
        let sx: i128 = if cx2 > cx1 {
            1
        } else if cx2 < cx1 {
            -1
        } else {
            0
        };
        let sy: i128 = if cy2 > cy1 {
            1
        } else if cy2 < cy1 {
            -1
        } else {
            0
        };
        let mut err: i128 = dxv + dyv;
        let mut x = cx1;
        let mut y = cy1;
        let ghost pts = line_pts(cx1 as int, cy1 as int, cx2 as int, cy2 as int);
        let ghost mut done: Seq<(int, int)> = Seq::empty();
        proof {
            assert(dxv == absv(cx2 as int - cx1 as int));
            assert(dyv == -absv(cy2 as int - cy1 as int));
            assert(sx == signum(cx2 as int - cx1 as int));
            assert(sy == signum(cy2 as int - cy1 as int));
            lemma_line_pts_wf(cx1 as int, cy1 as int, cx2 as int, cy2 as int);
            assert(pts =~= done + pts);
        }
        loop
            invariant_except_break
                self.wf(),
                self.width == old(self).width,
                self.height == old(self).height,
                0 <= cx1 <= self.w() - 1,
                0 <= cx2 <= self.w() - 1,
                0 <= cy1 <= self.h() - 1,
                0 <= cy2 <= self.h() - 1,
                bres_wf(
                    x as int,
                    y as int,
                    err as int,
                    cx2 as int,
                    cy2 as int,
                    dxv as int,
                    dyv as int,
                    sx as int,
                    sy as int,
                ),
                betw(cx1 as int, x as int, cx2 as int),
                betw(cy1 as int, y as int, cy2 as int),
                0 <= dxv <= self.w() - 1,
                0 <= -dyv <= self.h() - 1,
                3 * dyv <= 2 * err,
                2 * err <= 3 * dxv,
                pts == done + bres_pts(
                    x as int,
                    y as int,
                    err as int,
                    cx2 as int,
                    cy2 as int,
                    dxv as int,
                    dyv as int,
                    sx as int,
                    sy as int,
                ),
                forall|xx: int, yy: int|
                    0 <= xx < self.w() && 0 <= yy < self.h()
                        ==> #[trigger] self.pixel(xx, yy) == (if done.contains((xx, yy)) {
                            color
                        } else {
                            old(self).pixel(xx, yy)
                        }),
            ensures
                self.wf(),
                self.width == old(self).width,
                self.height == old(self).height,
                forall|xx: int, yy: int|
                    0 <= xx < self.w() && 0 <= yy < self.h()
                        ==> #[trigger] self.pixel(xx, yy) == (if pts.contains((xx, yy)) {
                            color
                        } else {
                            old(self).pixel(xx, yy)
                        }),
            decreases absv(cx2 as int - x as int) + absv(cy2 as int - y as int),
        {
            let ghost hx = x as int;
            let ghost hy = y as int;
            let ghost herr = err as int;
            let ghost rem = bres_pts(
                hx,
                hy,
                herr,
                cx2 as int,
                cy2 as int,
                dxv as int,
                dyv as int,
                sx as int,
                sy as int,
            );
            let ghost pre = *self;
            let ghost prev_done = done;
            proof {
                lemma_flat_index(self.w(), self.h(), hx, hy);
            }
            let px = x as usize;
            let py = y as usize;
            self.pixels[py * self.width + px] = color;
            proof {
                done = prev_done.push((hx, hy));
                assert forall|xx: int, yy: int|
                    0 <= xx < self.w() && 0 <= yy < self.h()
                        implies #[trigger] self.pixel(xx, yy) == (if done.contains((xx, yy)) {
                    color
                } else {
                    old(self).pixel(xx, yy)
                }) by {
                    lemma_flat_index(self.w(), self.h(), xx, yy);
                    if xx == hx && yy == hy {
                        assert(done[done.len() - 1] == (xx, yy));
                        assert(done.contains((xx, yy)));
                        assert(self.pixel(xx, yy) == color);
                    } else {
                        assert(yy * pre.w() + xx != hy * pre.w() + hx) by (nonlinear_arith)
                            requires
                                !(yy == hy && xx == hx),
                                0 <= xx < pre.w(),
                                0 <= hx < pre.w(),
                                0 <= yy,
                                0 <= hy,
                        ;
                        assert(self.pixel(xx, yy) == pre.pixel(xx, yy));
                        if prev_done.contains((xx, yy)) {
                            let i = choose|i: int|
                                0 <= i < prev_done.len() && prev_done[i] == (xx, yy);
                            assert(done[i] == (xx, yy));
                            assert(done.contains((xx, yy)));
                        } else {
                            if done.contains((xx, yy)) {
                                let i = choose|i: int| 0 <= i < done.len() && done[i] == (xx, yy);
                                assert(i < prev_done.len() && prev_done[i] == (xx, yy));
                                assert(false);
                            }
                        }
                    }
                }
            }
            let e = 2 * err;
            if e >= dyv {
                if x == cx2 {
                    proof {
                        assert(rem =~= seq![(hx, hy)]);
                        assert(pts =~= done);
                    }
                    break;
                }
                err = err + dyv;
                x = x + sx;
            }
            if e <= dxv {
                if y == cy2 {
                    proof {
                        assert(rem =~= seq![(hx, hy)]);
                        assert(pts =~= done);
                    }
                    break;
                }
                err = err + dxv;
                y = y + sy;
            }
            proof {
                if e >= dyv {
                    if e <= dxv {
                        lemma_bres_wf_step_x(
                            hx,
                            hy,
                            herr,
                            cx2 as int,
                            cy2 as int,
                            dxv as int,
                            dyv as int,
                            sx as int,
                            sy as int,
                        );
                        lemma_bres_wf_step_y(
                            hx + sx as int,
                            hy,
                            herr + dyv as int,
                            cx2 as int,
                            cy2 as int,
                            dxv as int,
                            dyv as int,
                            sx as int,
                            sy as int,
                        );
                    } else {
                        lemma_bres_wf_step_x(
                            hx,
                            hy,
                            herr,
                            cx2 as int,
                            cy2 as int,
                            dxv as int,
                            dyv as int,
                            sx as int,
                            sy as int,
                        );
                    }
                } else {
                    lemma_bres_wf_step_y(
                        hx,
                        hy,
                        herr,
                        cx2 as int,
                        cy2 as int,
                        dxv as int,
                        dyv as int,
                        sx as int,
                        sy as int,
                    );
                }
                assert(rem =~= seq![(hx, hy)] + bres_pts(
                    x as int,
                    y as int,
                    err as int,
                    cx2 as int,
                    cy2 as int,
                    dxv as int,
                    dyv as int,
                    sx as int,
                    sy as int,
                ));
                assert(pts =~= done + bres_pts(
                    x as int,
                    y as int,
                    err as int,
                    cx2 as int,
                    cy2 as int,
                    dxv as int,
                    dyv as int,
                    sx as int,
                    sy as int,
                ));
            }
        }
    }

    /// Fills the disk of the given radius centered at `(x0, y0)`: every pixel
    /// of the clamped bounding box whose squared distance to the center is
    /// strictly below `radius * radius` (see `in_disk_region`). Any center
    /// and radius are accepted.
    pub fn fill_circle(&mut self, color: u32, x0: i64, y0: i64, radius: usize)
        requires
            old(self).wf(),
        ensures
            final(self).wf(),
            final(self).w() == old(self).w(),
            final(self).h() == old(self).h(),
            forall|x: int, y: int|
                0 <= x < old(self).w() && 0 <= y < old(self).h()
                    ==> #[trigger] final(self).pixel(x, y) == (if in_disk_region(
                        old(self).w(),
                        old(self).h(),
                        x0 as int,
                        y0 as int,
                        radius as int,
                        x,
                        y,
                    ) {
                        color
                    } else {
                        old(self).pixel(x, y)
                    }),
    {
        proof {
            assert(self.width * self.height >= self.width && self.width * self.height
                >= self.height) by (nonlinear_arith)
                requires
                    1 <= self.width,
                    1 <= self.height,
            ;
        }
        let wm1 = (self.width - 1) as i128;
        let hm1 = (self.height - 1) as i128;
        let x1 = clamp_i128(x0 as i128 - radius as i128, 0, wm1) as usize;
        let y1 = clamp_i128(y0 as i128 - radius as i128, 0, hm1) as usize;
        let x2 = clamp_i128(x0 as i128 + radius as i128, 0, wm1) as usize;
        let y2 = clamp_i128(y0 as i128 + radius as i128, 0, hm1) as usize;
        proof {
            assert(radius as u128 * radius as u128 <= 0xffff_ffff_ffff_ffff
                * 0xffff_ffff_ffff_ffff) by (nonlinear_arith)
                requires
                    radius <= 0xffff_ffff_ffff_ffff,
            ;
        }
        let rr = (radius as u128) * (radius as u128);
        let mut y = y1;
        while y < y2
            invariant
                self.wf(),
                self.width == old(self).width,
                self.height == old(self).height,
                self.width < 0x8000_0000_0000_0000,
                self.height < 0x8000_0000_0000_0000,
                radius <= u64::MAX,
                rr == radius as int * radius as int,
                x1 == clamped(x0 as int - radius as int, 0, self.w() - 1),
                y1 == clamped(y0 as int - radius as int, 0, self.h() - 1),
                x2 == clamped(x0 as int + radius as int, 0, self.w() - 1),
                y2 == clamped(y0 as int + radius as int, 0, self.h() - 1),
                y1 <= y,
                y <= y2 || y == y1,
                forall|xx: int, yy: int|
                    0 <= xx < self.w() && 0 <= yy < self.h()
                        ==> #[trigger] self.pixel(xx, yy) == (if x1 <= xx < x2 && y1 <= yy < y
                            && sq(xx - x0 as int) + sq(yy - y0 as int) < rr {
                            color
                        } else {
                            old(self).pixel(xx, yy)
                        }),
            decreases y2 - y,
        {
            let mut x = x1;
            while x < x2
                invariant
                    self.wf(),
                    self.width == old(self).width,
                    self.height == old(self).height,
                    self.width < 0x8000_0000_0000_0000,
                    self.height < 0x8000_0000_0000_0000,
                    radius <= u64::MAX,
                    rr == radius as int * radius as int,
                    x1 <= x,
                    x <= x2 || x == x1,
                    x2 <= self.w() - 1,
                    y1 <= y < y2,
                    y2 <= self.h() - 1,
                    forall|xx: int, yy: int|
                        0 <= xx < self.w() && 0 <= yy < self.h()
                            ==> #[trigger] self.pixel(xx, yy) == (if (x1 <= xx < x2 && y1 <= yy < y
                                && sq(xx - x0 as int) + sq(yy - y0 as int) < rr) || (yy == y && x1
                                <= xx < x && sq(xx - x0 as int) + sq(yy - y0 as int) < rr) {
                                color
                            } else {
                                old(self).pixel(xx, yy)
                            }),
                decreases x2 - x,
            {
                let ghost pre = *self;
                let dxi: i128 = x as i128 - x0 as i128;
                let dyi: i128 = y as i128 - y0 as i128;
                let adx: u128 = if dxi < 0 {
                    (-dxi) as u128
                } else {
                    dxi as u128
                };
                let ady: u128 = if dyi < 0 {
                    (-dyi) as u128
                } else {
                    dyi as u128
                };
                proof {
                    assert(adx * adx <= 0xffff_ffff_ffff_ffff * 0xffff_ffff_ffff_ffff)
                        by (nonlinear_arith)
                        requires
                            adx <= 0xffff_ffff_ffff_ffff,
                    ;
                    assert(ady * ady <= 0xffff_ffff_ffff_ffff * 0xffff_ffff_ffff_ffff)
                        by (nonlinear_arith)
                        requires
                            ady <= 0xffff_ffff_ffff_ffff,
                    ;
                    lemma_abs_square(dxi as int);
                    lemma_abs_square(dyi as int);
                    assert(adx as int == absv(dxi as int) && ady as int == absv(dyi as int));
                }
                let sqx = adx * adx;
                let sqy = ady * ady;
                if sqx < rr && sqy < rr - sqx {
                    proof {
                        lemma_flat_index(self.w(), self.h(), x as int, y as int);
                    }
                    self.pixels[y * self.width + x] = color;
                }
                x = x + 1;
                proof {
                    assert(sqx == sq(x - 1 - x0 as int) && sqy == sq(y as int - y0 as int));
                    assert forall|xx: int, yy: int|
                        0 <= xx < self.w() && 0 <= yy < self.h()
                            implies #[trigger] self.pixel(xx, yy) == (if (x1 <= xx < x2 && y1 <= yy
                        < y && sq(xx - x0 as int) + sq(yy - y0 as int) < rr) || (yy == y && x1 <= xx
                        < x && sq(xx - x0 as int) + sq(yy - y0 as int) < rr) {
                        color
                    } else {
                        old(self).pixel(xx, yy)
                    }) by {
                        lemma_flat_index(self.w(), self.h(), xx, yy);
                        if yy == y && xx == x - 1 {
                            if !(sq(xx - x0 as int) + sq(yy - y0 as int) < rr) {
                                assert(self.pixel(xx, yy) == pre.pixel(xx, yy));
                            }
                        } else {
                            assert(yy * pre.w() + xx != y * pre.w() + (x - 1)) by (nonlinear_arith)
                                requires
                                    !(yy == y && xx == x - 1),
                                    0 <= xx < pre.w(),
                                    0 <= x - 1 < pre.w(),
                                    0 <= yy,
                                    0 <= y,
                            ;
                            assert(self.pixel(xx, yy) == pre.pixel(xx, yy));
                        }
                    }
                }
            }
            y = y + 1;
        }
        proof {
            assert forall|x: int, y: int|
                0 <= x < old(self).w() && 0 <= y < old(self).h()
                    implies #[trigger] self.pixel(x, y) == (if in_disk_region(
                old(self).w(),
                old(self).h(),
                x0 as int,
                y0 as int,
                radius as int,
                x,
                y,
            ) {
                color
            } else {
                old(self).pixel(x, y)
            }) by {
                assert(sq(x - x0 as int) == (x - x0 as int) * (x - x0 as int));
                assert(sq(y - y0 as int) == (y - y0 as int) * (y - y0 as int));
            }
        }
    }

    /// Serializes the canvas to the binary PPM format: the ASCII header
    /// `P6\n<width> <height> 255\n`, then `3 * width * height` body bytes,
    /// the red, green and blue bytes of each pixel in row-major order. The
    /// canvas is not changed.
    pub fn ppm_data(&self) -> (out: Vec<u8>)
        requires
            self.wf(),
        ensures
            out@ == ppm_of(self.w(), self.h(), self.grid()),
    {
        let mut out: Vec<u8> = Vec::new();
        out.push(0x50u8);
        out.push(0x36u8);
        out.push(0x0au8);
        push_decimal(&mut out, self.width);
        out.push(0x20u8);
        push_decimal(&mut out, self.height);
        out.push(0x20u8);
        out.push(0x32u8);
        out.push(0x35u8);
        out.push(0x35u8);
        out.push(0x0au8);
        proof {
            assert(out@ =~= header_of(self.w(), self.h()));
            assert(out@ =~= header_of(self.w(), self.h()) + body_of(self.grid().take(0)));
        }
        let n = self.pixels.len();
        let mut i: usize = 0;
        while i < n
            invariant
                self.wf(),
                n == self.grid().len(),
                i <= n,
                out@ == header_of(self.w(), self.h()) + body_of(self.grid().take(i as int)),
            decreases n - i,
        {
            let p = self.pixels[i];
            out.push((p & 0xff) as u8);
            out.push(((p >> 8) & 0xff) as u8);
            out.push(((p >> 16) & 0xff) as u8);
            i = i + 1;
            proof {
                let g = self.grid();
                assert(g.take(i as int).drop_last() =~= g.take(i - 1));
                assert(g.take(i as int).last() == p);
                assert(body_of(g.take(i as int)) == body_of(g.take(i - 1)) + rgb_triple(p));
                assert(out@ =~= header_of(self.w(), self.h()) + body_of(g.take(i as int)));
            }
        }
        proof {
            assert(self.grid().take(n as int) =~= self.grid());
        }
        out
    }
}

/// The square of `v`.
pub open spec fn sq(v: int) -> int {
    v * v
}

/// Law: filling is idempotent. A second `fill` with the same color maps an
/// already-filled grid to itself, so filling twice yields the same grid as
/// filling once.
pub proof fn lemma_fill_idempotent(len: nat, color: u32)
    ensures
        Seq::new(Seq::new(len, |i: int| color).len(), |i: int| color)
            == Seq::new(len, |i: int| color),
{
}

/// Law: a canvas whose every pixel holds `color` — the state `fill(color)`
/// leaves behind — serializes to a body of `3 * w * h` bytes in which every
/// triple is the low three bytes of `color`: red, then green, then blue.
pub proof fn lemma_filled_canvas_body(c: Canvas, color: u32)
    requires
        c.wf(),
        forall|x: int, y: int|
            0 <= x < c.w() && 0 <= y < c.h() ==> #[trigger] c.pixel(x, y) == color,
    ensures
        body_of(c.grid()).len() == 3 * (c.w() * c.h()),
        forall|k: int|
            0 <= k < body_of(c.grid()).len() ==> #[trigger] body_of(c.grid())[k] == rgb_triple(
                color,
            )[k % 3],
{
    assert forall|i: int| 0 <= i < c.grid().len() implies c.grid()[i] == color by {
        lemma_flat_index_inv(c.w(), c.h(), i);
        assert(c.pixel(i % c.w(), i / c.w()) == color);
    }
    lemma_filled_body(c.grid(), color);
}

/// Law: a freshly constructed canvas — every pixel 0 — serializes to a body
/// of exactly `3 * w * h` bytes, all zero.
pub proof fn lemma_new_canvas_body(c: Canvas)
    requires
        c.wf(),
        forall|x: int, y: int| 0 <= x < c.w() && 0 <= y < c.h() ==> #[trigger] c.pixel(x, y) == 0,
    ensures
        body_of(c.grid()).len() == 3 * (c.w() * c.h()),
        forall|k: int| 0 <= k < body_of(c.grid()).len() ==> #[trigger] body_of(c.grid())[k] == 0,
{
    assert forall|i: int| 0 <= i < c.grid().len() implies c.grid()[i] == 0u32 by {
        lemma_flat_index_inv(c.w(), c.h(), i);
        assert(c.pixel(i % c.w(), i / c.w()) == 0);
    }
    lemma_blank_body(c.grid());
}

/// Law: on a canvas of exactly `w`-by-`h`, `fill_rect(c, 0, 0, w, h)` covers
/// the region `[0, w-1) × [0, h-1)` — every pixel `fill(c)` paints except
/// the last column and the last row, which the clamp-to-`w-1`/`h-1` policy
/// leaves out.
pub proof fn lemma_full_rect_region(w: int, h: int, x: int, y: int)
    requires
        1 <= w,
        1 <= h,
    ensures
        in_rect_region(w, h, 0, 0, w, h, x, y) <==> (0 <= x < w - 1 && 0 <= y < h - 1),
{
}

/// Law: a rectangle lying entirely on the negative side of the canvas
/// collapses to an empty region: the fill paints nothing at all (and, the
/// operation being total, it cannot fault either).
pub proof fn lemma_offcanvas_rect_empty(
    w: int,
    h: int,
    x0: int,
    y0: int,
    rw: int,
    rh: int,
    x: int,
    y: int,
)
    requires
        1 <= w,
        1 <= h,
        x0 + rw <= 0 || y0 + rh <= 0,
    ensures
        !in_rect_region(w, h, x0, y0, rw, rh, x, y),
{
}

/// Law: the disk membership rule at the horizontal edge. For a radius of at
/// least 1, with the relevant pixels inside the canvas and the bounding box
/// not cut by the right border, the pixel `(x0 + r - 1, y0)` is painted
/// (since `(r-1)^2 < r^2`) and the pixel `(x0 + r, y0)` is not.
pub proof fn lemma_circle_edge(w: int, h: int, x0: int, y0: int, r: int)
    requires
        1 <= w,
        1 <= h,
        1 <= r,
        0 <= x0 + r - 1,
        x0 + r <= w - 1,
        0 <= y0,
        y0 + r <= h - 1,
    ensures
        in_disk_region(w, h, x0, y0, r, x0 + r - 1, y0),
        !in_disk_region(w, h, x0, y0, r, x0 + r, y0),
{
    assert((r - 1) * (r - 1) < r * r) by (nonlinear_arith)
        requires
            r >= 1,
    ;
    assert((x0 + r - 1 - x0) * (x0 + r - 1 - x0) == (r - 1) * (r - 1));
    assert((y0 - y0) * (y0 - y0) == 0) by (nonlinear_arith);
    assert(clamped(x0 + r, 0, w - 1) == x0 + r);
}

} // verus!
