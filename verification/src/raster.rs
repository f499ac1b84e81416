//! Integer pixel primitives for the frame buffer.
//!
//! The buffer is a flat `Vec<u32>` of `WIDTH * HEIGHT` pixels in row-major
//! order; pixel `(x, y)` lives at index `y * WIDTH + x`. Every primitive
//! clips against the screen bounds, leaves the buffer length unchanged,
//! writes nothing but its own color, and touches no pixel outside the
//! region its contract names.

use vstd::prelude::*;
use vstd::string::StrSliceExecFns;
use vstd::string::StringSliceAdditionalSpecFns;

verus! {

/// Width of the frame buffer in pixels.
pub const WIDTH: usize = 800;

/// Height of the frame buffer in pixels.
pub const HEIGHT: usize = 800;

/// Largest coordinate the drawing primitives accept; keeps their signed
/// pixel-walk arithmetic away from `isize` overflow.
pub const MAX_COORD: usize = 0x0FFF_FFFF;

/// Index of pixel `(px, py)` in the row-major frame buffer.
pub open spec fn pixel_index(px: int, py: int) -> int {
    py * (WIDTH as int) + px
}

/// Pixel `(px, py)` lies in the axis-aligned bounding box of the two
/// corners `(x1, y1)` and `(x2, y2)`.
pub open spec fn in_box(px: int, py: int, x1: int, y1: int, x2: int, y2: int) -> bool {
    vstd::math::min(x1, x2) <= px <= vstd::math::max(x1, x2)
        && vstd::math::min(y1, y2) <= py <= vstd::math::max(y1, y2)
}

/// A pixel on the screen has its index inside the buffer.
proof fn lemma_pixel_index_bounds(px: int, py: int)
    requires
        0 <= px < WIDTH,
        0 <= py < HEIGHT,
    ensures
        0 <= pixel_index(px, py) < WIDTH * HEIGHT,
{
    assert(0 <= py * (WIDTH as int) + px < (WIDTH as int) * (HEIGHT as int)) by (nonlinear_arith)
        requires
            0 <= px,
            px < (WIDTH as int),
            0 <= py,
            py < (HEIGHT as int),
    ;
}

/// Row-major indexing is injective on the screen: two distinct on-screen
/// pixels never share a buffer index.
proof fn lemma_pixel_index_injective(px1: int, py1: int, px2: int, py2: int)
    requires
        0 <= px1 < WIDTH,
        0 <= py1 < HEIGHT,
        0 <= px2 < WIDTH,
        0 <= py2 < HEIGHT,
        pixel_index(px1, py1) == pixel_index(px2, py2),
    ensures
        px1 == px2 && py1 == py2,
{
    assert(px1 == px2 && py1 == py2) by (nonlinear_arith)
        requires
            0 <= px1,
            px1 < (WIDTH as int),
            0 <= py1,
            0 <= px2,
            px2 < (WIDTH as int),
            0 <= py2,
            py1 * (WIDTH as int) + px1 == py2 * (WIDTH as int) + px2,
            (WIDTH as int) == 800,
    ;
}

/// Paint the single on-screen pixel `(x, y)`.
fn set_pixel(buffer: &mut Vec<u32>, x: usize, y: usize, color: u32)
    requires
        old(buffer).len() == WIDTH * HEIGHT,
        x < WIDTH,
        y < HEIGHT,
    ensures
        final(buffer).len() == old(buffer).len(),
        final(buffer)@ == old(buffer)@.update(pixel_index(x as int, y as int), color),
{
    proof {
        lemma_pixel_index_bounds(x as int, y as int);
    }
    let idx: usize = y * WIDTH + x;
    proof {
        assert(idx == pixel_index(x as int, y as int));
    }
    buffer.set(idx, color);
}

/// Set every pixel of the buffer to the background color 0.
pub fn clear_buffer(buffer: &mut Vec<u32>)
    ensures
        final(buffer).len() == old(buffer).len(),
        forall|i: int| 0 <= i < final(buffer).len() ==> final(buffer)[i] == 0u32,
{
    let n: usize = buffer.len();
    let mut i: usize = 0;
    while i < n
        invariant
            i <= n,
            buffer.len() == n,
            forall|j: int| 0 <= j < i ==> buffer[j] == 0u32,
        decreases n - i,
    {
        buffer.set(i, 0u32);
        i = i + 1;
    }
}

/// Error term of Bresenham's walk after `a` x-steps and `b` y-steps,
/// for axis spans `dx` and `m` (both nonnegative).
pub open spec fn bres_err(dx: int, m: int, a: int, b: int) -> int {
    dx - m - a * m + b * dx
}

/// The walk takes an x step when twice the error is at least `-m`.
pub open spec fn bres_step_x(dx: int, m: int, a: int, b: int) -> bool {
    2 * bres_err(dx, m, a, b) >= -m
}

/// The walk takes a y step when twice the error is at most `dx`.
pub open spec fn bres_step_y(dx: int, m: int, a: int, b: int) -> bool {
    2 * bres_err(dx, m, a, b) <= dx
}

/// The pixels Bresenham's walk visits on its way from `(x1, y1)` to the
/// endpoint `dx` x-steps and `m` y-steps away (in directions `sx`, `sy`),
/// starting after `a` x-steps and `b` y-steps; the endpoint itself is not
/// visited. Each visited pixel advances at least one axis, and never an
/// axis that is already exhausted (the guard below closes that branch of
/// the definition; the walk never reaches it).
pub open spec fn bres_walk(
    x1: int,
    y1: int,
    sx: int,
    sy: int,
    dx: int,
    m: int,
    a: int,
    b: int,
) -> Seq<(int, int)>
    decreases (dx - a) + (m - b),
{
    if !(0 <= a && a <= dx && 0 <= b && b <= m) || (a == dx && b == m) {
        Seq::empty()
    } else {
        let a2 = if bres_step_x(dx, m, a, b) {
            a + 1
        } else {
            a
        };
        let b2 = if bres_step_y(dx, m, a, b) {
            b + 1
        } else {
            b
        };
        if a2 > dx || b2 > m {
            Seq::empty()
        } else {
            Seq::empty().push((x1 + sx * a, y1 + sy * b)) + bres_walk(x1, y1, sx, sy, dx, m, a2, b2)
        }
    }
}

/// The full pixel walk of the line from `(x1, y1)` toward `(x2, y2)`:
/// what `draw_line` paints, before clipping, in visiting order.
pub open spec fn line_walk(x1: int, y1: int, x2: int, y2: int) -> Seq<(int, int)> {
    let sx: int = if x1 < x2 {
        1
    } else {
        -1
    };
    let sy: int = if y1 < y2 {
        1
    } else {
        -1
    };
    bres_walk(x1, y1, sx, sy, vstd::math::abs(x2 - x1) as int, vstd::math::abs(y2 - y1) as int, 0, 0)
}

/// The walk never overshoots an exhausted axis: once all x steps are
/// taken the error term forbids another x step, and likewise for y.
proof fn lemma_no_overshoot(dxi: int, m: int, a: int, b: int, e2: int)
    requires
        e2 == 2 * (dxi - m - a * m + b * dxi),
        0 <= a <= dxi,
        0 <= b <= m,
        !(a == dxi && b == m),
    ensures
        a == dxi ==> !(e2 >= -m),
        b == m ==> !(e2 <= dxi),
{
    if a == dxi {
        assert(!(e2 >= -m)) by (nonlinear_arith)
            requires
                e2 == 2 * (dxi - m - a * m + b * dxi),
                a == dxi,
                0 <= b < m,
                dxi >= 0,
        ;
    }
    if b == m {
        assert(!(e2 <= dxi)) by (nonlinear_arith)
            requires
                e2 == 2 * (dxi - m - a * m + b * dxi),
                b == m,
                0 <= a < dxi,
                m >= 0,
        ;
    }
}

/// A non-degenerate line's walk starts at its first endpoint.
proof fn lemma_line_walk_first(x1: int, y1: int, x2: int, y2: int)
    requires
        !(x1 == x2 && y1 == y2),
    ensures
        line_walk(x1, y1, x2, y2).len() >= 1,
        line_walk(x1, y1, x2, y2)[0] == (x1, y1),
{
    let sxw: int = if x1 < x2 {
        1
    } else {
        -1
    };
    let syw: int = if y1 < y2 {
        1
    } else {
        -1
    };
    let dxw: int = vstd::math::abs(x2 - x1) as int;
    let m: int = vstd::math::abs(y2 - y1) as int;
    assert(0 * m == 0) by (nonlinear_arith);
    assert(0 * dxw == 0) by (nonlinear_arith);
    assert(sxw * 0 == 0) by (nonlinear_arith);
    assert(syw * 0 == 0) by (nonlinear_arith);
    assert(bres_err(dxw, m, 0, 0) == dxw - m);
    if dxw == 0 {
        assert(m >= 1);
        assert(!bres_step_x(dxw, m, 0, 0));
    }
    if m == 0 {
        assert(dxw >= 1);
        assert(!bres_step_y(dxw, m, 0, 0));
    }
    assert(line_walk(x1, y1, x2, y2) == bres_walk(x1, y1, sxw, syw, dxw, m, 0, 0));
    assert(line_walk(x1, y1, x2, y2)[0] == (x1 + sxw * 0, y1 + syw * 0));
}

/// Advancing the walk by one visit: the pixel at position `k` of the
/// full walk is the current one, and the walk from the stepped state is
/// the remaining suffix.
proof fn lemma_walk_advance(
    walk: Seq<(int, int)>,
    k: int,
    x1: int,
    y1: int,
    sxi: int,
    syi: int,
    dxi: int,
    m: int,
    a: int,
    b: int,
    a2s: int,
    b2s: int,
    p: (int, int),
)
    requires
        bres_walk(x1, y1, sxi, syi, dxi, m, a, b) == walk.skip(k),
        0 <= k <= walk.len(),
        0 <= a <= dxi,
        0 <= b <= m,
        !(a == dxi && b == m),
        a2s == if bres_step_x(dxi, m, a, b) {
            a + 1
        } else {
            a
        },
        b2s == if bres_step_y(dxi, m, a, b) {
            b + 1
        } else {
            b
        },
        a2s <= dxi,
        b2s <= m,
        p == (x1 + sxi * a, y1 + syi * b),
    ensures
        k < walk.len(),
        walk[k] == p,
        bres_walk(x1, y1, sxi, syi, dxi, m, a2s, b2s) == walk.skip(k + 1),
{
    let rest = bres_walk(x1, y1, sxi, syi, dxi, m, a2s, b2s);
    assert(bres_walk(x1, y1, sxi, syi, dxi, m, a, b) == Seq::empty().push(p) + rest);
    assert(walk.skip(k).len() >= 1);
    assert(k < walk.len());
    assert(walk[k] == walk.skip(k)[0]);
    assert(rest.len() == walk.len() - (k + 1));
    assert forall|t: int| 0 <= t < rest.len() implies rest[t] == walk.skip(k + 1)[t] by {
        assert(rest[t] == (Seq::empty().push(p) + rest)[t + 1]);
        assert((Seq::empty().push(p) + rest)[t + 1] == walk.skip(k)[t + 1]);
        assert(walk.skip(k)[t + 1] == walk[k + t + 1]);
        assert(walk.skip(k + 1)[t] == walk[k + 1 + t]);
    }
    assert(rest =~= walk.skip(k + 1));
}

/// Painting the walk's pixel at position `k` preserves the line loop's
/// buffer bookkeeping: all earlier walk pixels stay painted, the new one
/// is painted, and pixels off the walk keep their original value.
proof fn lemma_paint_step(
    pre: Seq<u32>,
    post: Seq<u32>,
    orig: Seq<u32>,
    walk: Seq<(int, int)>,
    k: int,
    p: (int, int),
    color: u32,
)
    requires
        pre.len() == WIDTH * HEIGHT,
        post.len() == pre.len(),
        orig.len() == pre.len(),
        0 <= k < walk.len(),
        walk[k] == p,
        forall|i: int| 0 <= i < post.len() ==> post[i] == pre[i] || post[i] == color,
        forall|qx: int, qy: int|
            0 <= qx < WIDTH && 0 <= qy < HEIGHT && !(qx == p.0 && qy == p.1) ==> post[pixel_index(
                qx,
                qy,
            )] == pre[pixel_index(qx, qy)],
        0 <= p.0 < WIDTH && 0 <= p.1 < HEIGHT ==> post[pixel_index(p.0, p.1)] == color,
        forall|t: int|
            0 <= t < k && 0 <= #[trigger] walk[t].0 < WIDTH && 0 <= walk[t].1 < HEIGHT
                ==> pre[pixel_index(walk[t].0, walk[t].1)] == color,
        forall|qx: int, qy: int|
            0 <= qx < WIDTH && 0 <= qy < HEIGHT && !walk.contains((qx, qy)) ==> pre[pixel_index(
                qx,
                qy,
            )] == orig[pixel_index(qx, qy)],
    ensures
        forall|t: int|
            0 <= t < k + 1 && 0 <= #[trigger] walk[t].0 < WIDTH && 0 <= walk[t].1 < HEIGHT
                ==> post[pixel_index(walk[t].0, walk[t].1)] == color,
        forall|qx: int, qy: int|
            0 <= qx < WIDTH && 0 <= qy < HEIGHT && !walk.contains((qx, qy)) ==> post[pixel_index(
                qx,
                qy,
            )] == orig[pixel_index(qx, qy)],
{
    assert forall|t: int|
        0 <= t < k + 1 && 0 <= #[trigger] walk[t].0 < WIDTH && 0 <= walk[t].1
            < HEIGHT implies post[pixel_index(walk[t].0, walk[t].1)] == color by {
        if walk[t] == p {
            assert(post[pixel_index(p.0, p.1)] == color);
        } else {
            assert(t < k);
            assert(pre[pixel_index(walk[t].0, walk[t].1)] == color);
            assert(post[pixel_index(walk[t].0, walk[t].1)] == pre[pixel_index(
                walk[t].0,
                walk[t].1,
            )]);
        }
    }
    assert forall|qx: int, qy: int|
        0 <= qx < WIDTH && 0 <= qy < HEIGHT && !walk.contains(
            (qx, qy),
        ) implies post[pixel_index(qx, qy)] == orig[pixel_index(qx, qy)] by {
        if (qx, qy) == p {
            assert(0 <= k < walk.len() && walk[k] == (qx, qy));
            assert(walk.contains((qx, qy)));
        } else {
            assert(post[pixel_index(qx, qy)] == pre[pixel_index(qx, qy)]);
        }
    }
}

/// Paint pixel `(px, py)` if it is on screen; off-screen points are
/// clipped away and leave the buffer untouched.
fn plot_clipped(buffer: &mut Vec<u32>, px: isize, py: isize, color: u32)
    requires
        old(buffer).len() == WIDTH * HEIGHT,
    ensures
        final(buffer).len() == old(buffer).len(),
        forall|i: int| 0 <= i < final(buffer).len() ==> final(buffer)[i] == old(buffer)[i]
            || final(buffer)[i] == color,
        forall|qx: int, qy: int|
            0 <= qx < WIDTH && 0 <= qy < HEIGHT && !(qx == px as int && qy == py as int)
                ==> final(buffer)[pixel_index(qx, qy)] == old(buffer)[pixel_index(qx, qy)],
        0 <= px as int && (px as int) < WIDTH && 0 <= py as int && (py as int) < HEIGHT
            ==> final(buffer)[pixel_index(px as int, py as int)] == color,
{
    if px >= 0 && px < WIDTH as isize && py >= 0 && py < HEIGHT as isize {
        let xu: usize = px as usize;
        let yu: usize = py as usize;
        let ghost prev = buffer@;
        set_pixel(buffer, xu, yu, color);
        proof {
            lemma_pixel_index_bounds(xu as int, yu as int);
            assert forall|qx: int, qy: int|
                0 <= qx < WIDTH && 0 <= qy < HEIGHT && !(qx == px as int && qy
                    == py as int) implies buffer[pixel_index(qx, qy)] == prev[pixel_index(
                qx,
                qy,
            )] by {
                lemma_pixel_index_bounds(qx, qy);
                if pixel_index(qx, qy) == pixel_index(xu as int, yu as int) {
                    lemma_pixel_index_injective(qx, qy, xu as int, yu as int);
                }
            }
        }
    }
}

/// Draw the line from `(x1, y1)` toward `(x2, y2)` with Bresenham's
/// algorithm, clipping every pixel against the screen. The walk stops on
/// reaching `(x2, y2)`, which is itself not painted.
///
/// The contract is exact: the pixels of [`line_walk`] that lie on screen
/// are painted `color`, every other pixel keeps its old value, and the
/// buffer keeps its length. The remaining clauses restate consequences a
/// caller reaches for first: only `color` is ever written, and a
/// non-degenerate line paints its starting pixel.
#[verifier::loop_isolation(false)]
#[verifier::rlimit(100)]
pub fn draw_line(buffer: &mut Vec<u32>, x1: usize, y1: usize, x2: usize, y2: usize, color: u32)
    requires
        old(buffer).len() == WIDTH * HEIGHT,
        x1 <= MAX_COORD,
        y1 <= MAX_COORD,
        x2 <= MAX_COORD,
        y2 <= MAX_COORD,
    ensures
        final(buffer).len() == old(buffer).len(),
        forall|t: int|
            0 <= t < line_walk(x1 as int, y1 as int, x2 as int, y2 as int).len() && 0 <= line_walk(
                x1 as int,
                y1 as int,
                x2 as int,
                y2 as int,
            )[t].0 < WIDTH && 0 <= line_walk(x1 as int, y1 as int, x2 as int, y2 as int)[t].1
                < HEIGHT ==> final(buffer)[pixel_index(
                line_walk(x1 as int, y1 as int, x2 as int, y2 as int)[t].0,
                line_walk(x1 as int, y1 as int, x2 as int, y2 as int)[t].1,
            )] == color,
        forall|qx: int, qy: int|
            0 <= qx < WIDTH && 0 <= qy < HEIGHT && !line_walk(
                x1 as int,
                y1 as int,
                x2 as int,
                y2 as int,
            ).contains((qx, qy)) ==> final(buffer)[pixel_index(qx, qy)] == old(buffer)[pixel_index(
                qx,
                qy,
            )],
        forall|i: int| 0 <= i < final(buffer).len() ==> final(buffer)[i] == old(buffer)[i]
            || final(buffer)[i] == color,
        x1 < WIDTH && y1 < HEIGHT && !(x1 == x2 && y1 == y2) ==> final(buffer)[pixel_index(
            x1 as int,
            y1 as int,
        )] == color,
{
    let dxu: usize = if x2 >= x1 {
        x2 - x1
    } else {
        x1 - x2
    };
    let dyu: usize = if y2 >= y1 {
        y2 - y1
    } else {
        y1 - y2
    };
    let dx: isize = dxu as isize;
    let dy: isize = -(dyu as isize);
    let sx: isize = if x1 < x2 {
        1
    } else {
        -1
    };
    let sy: isize = if y1 < y2 {
        1
    } else {
        -1
    };
    let mut err: isize = dx + dy;

    let x1i: isize = x1 as isize;
    let y1i: isize = y1 as isize;
    let x2i: isize = x2 as isize;
    let y2i: isize = y2 as isize;
    let mut x: isize = x1i;
    let mut y: isize = y1i;

    let ghost dxi: int = dxu as int;
    let ghost m: int = dyu as int;
    let ghost mut a: int = 0;
    let ghost mut b: int = 0;
    let ghost walk = line_walk(x1 as int, y1 as int, x2 as int, y2 as int);
    let ghost mut k: int = 0;

    proof {
        assert(dx as int == dxi);
        assert(dy as int == -m);
        if sx == 1 {
            assert(x2i as int == x1i as int + dxi);
        } else {
            assert(x2i as int == x1i as int - dxi);
        }
        if sy == 1 {
            assert(y2i as int == y1i as int + m);
        } else {
            assert(y2i as int == y1i as int - m);
        }
        assert(walk == bres_walk(x1 as int, y1 as int, sx as int, sy as int, dxi, m, 0, 0));
        assert(walk.skip(0) =~= walk);
    }

    while x != x2i || y != y2i
        invariant
            buffer.len() == WIDTH * HEIGHT,
            0 <= a <= dxi,
            0 <= b <= m,
            sx == 1 ==> x as int == x1i as int + a,
            sx == -1 ==> x as int == x1i as int - a,
            sy == 1 ==> y as int == y1i as int + b,
            sy == -1 ==> y as int == y1i as int - b,
            err as int == bres_err(dxi, m, a, b),
            2 * (-m) <= err as int <= 2 * dxi,
            0 <= k <= walk.len(),
            bres_walk(x1 as int, y1 as int, sx as int, sy as int, dxi, m, a, b) == walk.skip(k),
            forall|t: int|
                0 <= t < k && 0 <= #[trigger] walk[t].0 < WIDTH && 0 <= walk[t].1 < HEIGHT
                    ==> buffer[pixel_index(walk[t].0, walk[t].1)] == color,
            forall|qx: int, qy: int|
                0 <= qx < WIDTH && 0 <= qy < HEIGHT && !walk.contains((qx, qy)) ==> buffer[
                    pixel_index(qx, qy)] == old(buffer)[pixel_index(qx, qy)],
            forall|i: int| 0 <= i < buffer.len() ==> buffer[i] == old(buffer)[i] || buffer[i]
                == color,
        decreases (dxi - a) + (m - b),
    {
        let ghost buf_entry = buffer@;
        let ghost p: (int, int) = (x as int, y as int);
        plot_clipped(buffer, x, y, color);

        let e2: isize = 2 * err;

        proof {
            if a == dxi && b == m {
                // Both axes exhausted contradicts the loop running.
                assert(x == x2i && y == y2i);
            }
            lemma_no_overshoot(dxi, m, a, b, e2 as int);
        }

        let ghost a0: int = a;
        let ghost b0: int = b;
        let ghost err0: int = err as int;
        let cond_x: bool = e2 >= dy;
        let cond_y: bool = e2 <= dx;

        proof {
            // The exec step conditions coincide with the walk's.
            assert(e2 as int == 2 * bres_err(dxi, m, a, b));
            assert(cond_x == bres_step_x(dxi, m, a, b));
            assert(cond_y == bres_step_y(dxi, m, a, b));
            if sx == 1 {
                assert((sx as int) * a == a) by (nonlinear_arith)
                    requires
                        (sx as int) == 1,
                ;
            } else {
                assert((sx as int) * a == -a) by (nonlinear_arith)
                    requires
                        (sx as int) == -1,
                ;
            }
            if sy == 1 {
                assert((sy as int) * b == b) by (nonlinear_arith)
                    requires
                        (sy as int) == 1,
                ;
            } else {
                assert((sy as int) * b == -b) by (nonlinear_arith)
                    requires
                        (sy as int) == -1,
                ;
            }
            assert(p == ((x1 as int) + (sx as int) * a, (y1 as int) + (sy as int) * b));
            let a2s: int = if cond_x {
                a + 1
            } else {
                a
            };
            let b2s: int = if cond_y {
                b + 1
            } else {
                b
            };
            assert(a2s <= dxi && b2s <= m);
            // Peel the visited pixel off the remaining walk.
            lemma_walk_advance(
                walk,
                k,
                x1 as int,
                y1 as int,
                sx as int,
                sy as int,
                dxi,
                m,
                a,
                b,
                a2s,
                b2s,
                p,
            );
            assert(walk[k] == p);
            lemma_paint_step(buf_entry, buffer@, old(buffer)@, walk, k, p, color);
            k = k + 1;
        }

        if cond_x {
            err = err + dy;
            x = x + sx;
            proof {
                a = a + 1;
            }
        }
        if cond_y {
            err = err + dx;
            y = y + sy;
            proof {
                b = b + 1;
            }
        }

        proof {
            assert(err as int == dxi - m - a * m + b * dxi) by (nonlinear_arith)
                requires
                    err0 == dxi - m - a0 * m + b0 * dxi,
                    cond_x ==> a == a0 + 1,
                    !cond_x ==> a == a0,
                    cond_y ==> b == b0 + 1,
                    !cond_y ==> b == b0,
                    err as int == err0 + (if cond_x {
                        -m
                    } else {
                        0int
                    }) + (if cond_y {
                        dxi
                    } else {
                        0int
                    }),
            ;
            assert(err as int == bres_err(dxi, m, a, b));
        }
    }

    proof {
        assert(a == dxi && b == m);
        assert(bres_walk(x1 as int, y1 as int, sx as int, sy as int, dxi, m, a, b)
            == Seq::<(int, int)>::empty());
        assert(walk.skip(k).len() == walk.len() - k);
        assert(k == walk.len());
        if !(x1 == x2 && y1 == y2) {
            lemma_line_walk_first(x1 as int, y1 as int, x2 as int, y2 as int);
            assert(walk.len() >= 1);
            assert(walk[0].0 == x1 as int);
            assert(walk[0].1 == y1 as int);
        }
    }
}

/// Pixel `(qx, qy)` is one of the eight mirror images of the offset `o`
/// around the center `(cx, cy)`.
pub open spec fn is_mirror(cx: int, cy: int, o: (int, int), qx: int, qy: int) -> bool {
    ||| (qx == cx + o.0 && qy == cy + o.1)
    ||| (qx == cx - o.0 && qy == cy + o.1)
    ||| (qx == cx + o.0 && qy == cy - o.1)
    ||| (qx == cx - o.0 && qy == cy - o.1)
    ||| (qx == cx + o.1 && qy == cy + o.0)
    ||| (qx == cx - o.1 && qy == cy + o.0)
    ||| (qx == cx + o.1 && qy == cy - o.0)
    ||| (qx == cx - o.1 && qy == cy - o.0)
}

/// Error term of the midpoint circle walk at offset `(x, y)` for the
/// given radius: the walk keeps it equal to
/// `x^2 + y^2 - (radius - 1)^2 + 1 - 2 * radius`.
pub open spec fn circ_err(r: int, x: int, y: int) -> int {
    x * x + y * y - (r - 1) * (r - 1) + 1 - 2 * r
}

/// The offset the midpoint circle walk visits after `(x, y)`: a
/// nonpositive error advances y (and then a positive one retreats x),
/// a positive error only retreats x.
pub open spec fn circ_next(r: int, x: int, y: int) -> (int, int) {
    if circ_err(r, x, y) <= 0 {
        if circ_err(r, x, y + 1) > 0 {
            (x - 1, y + 1)
        } else {
            (x, y + 1)
        }
    } else {
        (x - 1, y)
    }
}

/// The offsets the midpoint circle walk visits from state `(x, y)` on,
/// until the octant is exhausted (`x < y`).
pub open spec fn circ_walk(r: int, x: int, y: int) -> Seq<(int, int)>
    decreases x - y + 2,
{
    if x < y {
        Seq::empty()
    } else {
        Seq::empty().push((x, y)) + circ_walk(r, circ_next(r, x, y).0, circ_next(r, x, y).1)
    }
}

/// Pixel `(qx, qy)` belongs to the circle of the given radius centered
/// at `(cx, cy)`: it is a mirror of an offset the midpoint walk visits.
pub open spec fn circle_paints(cx: int, cy: int, r: int, qx: int, qy: int) -> bool {
    exists|t: int|
        0 <= t < circ_walk(r, r - 1, 0).len() && is_mirror(
            cx,
            cy,
            #[trigger] circ_walk(r, r - 1, 0)[t],
            qx,
            qy,
        )
}

/// Advancing the circle walk by one visit: the offset at position `k` of
/// the full walk is the current one, and the walk from the next state is
/// the remaining suffix.
proof fn lemma_circ_advance(cwalk: Seq<(int, int)>, k: int, r: int, x: int, y: int)
    requires
        circ_walk(r, x, y) == cwalk.skip(k),
        0 <= k <= cwalk.len(),
        y <= x,
    ensures
        k < cwalk.len(),
        cwalk[k] == (x, y),
        circ_walk(r, circ_next(r, x, y).0, circ_next(r, x, y).1) == cwalk.skip(k + 1),
{
    let rest = circ_walk(r, circ_next(r, x, y).0, circ_next(r, x, y).1);
    assert(circ_walk(r, x, y) == Seq::empty().push((x, y)) + rest);
    assert(cwalk.skip(k).len() >= 1);
    assert(k < cwalk.len());
    assert(cwalk[k] == cwalk.skip(k)[0]);
    assert(rest.len() == cwalk.len() - (k + 1));
    assert forall|t: int| 0 <= t < rest.len() implies rest[t] == cwalk.skip(k + 1)[t] by {
        assert(rest[t] == (Seq::empty().push((x, y)) + rest)[t + 1]);
        assert((Seq::empty().push((x, y)) + rest)[t + 1] == cwalk.skip(k)[t + 1]);
        assert(cwalk.skip(k)[t + 1] == cwalk[k + t + 1]);
        assert(cwalk.skip(k + 1)[t] == cwalk[k + 1 + t]);
    }
    assert(rest =~= cwalk.skip(k + 1));
}

/// Painting the eight mirrors of the walk's offset at position `k`
/// preserves the circle loop's buffer bookkeeping: mirrors of earlier
/// offsets stay painted, the new ones are painted, and pixels of no
/// visited offset keep their original value.
proof fn lemma_circle_paint_step(
    pre: Seq<u32>,
    post: Seq<u32>,
    orig: Seq<u32>,
    cwalk: Seq<(int, int)>,
    k: int,
    cx: int,
    cy: int,
    r: int,
    o: (int, int),
    color: u32,
)
    requires
        cwalk == circ_walk(r, r - 1, 0),
        0 <= k < cwalk.len(),
        cwalk[k] == o,
        forall|qx: int, qy: int|
            0 <= qx < WIDTH && 0 <= qy < HEIGHT && is_mirror(cx, cy, o, qx, qy)
                ==> post[pixel_index(qx, qy)] == color,
        forall|qx: int, qy: int|
            0 <= qx < WIDTH && 0 <= qy < HEIGHT && !is_mirror(cx, cy, o, qx, qy)
                ==> post[pixel_index(qx, qy)] == pre[pixel_index(qx, qy)],
        forall|t: int, qx: int, qy: int|
            0 <= t < k && 0 <= qx < WIDTH && 0 <= qy < HEIGHT && #[trigger] is_mirror(
                cx,
                cy,
                cwalk[t],
                qx,
                qy,
            ) ==> pre[pixel_index(qx, qy)] == color,
        forall|qx: int, qy: int|
            0 <= qx < WIDTH && 0 <= qy < HEIGHT && !circle_paints(cx, cy, r, qx, qy)
                ==> pre[pixel_index(qx, qy)] == orig[pixel_index(qx, qy)],
    ensures
        forall|t: int, qx: int, qy: int|
            0 <= t < k + 1 && 0 <= qx < WIDTH && 0 <= qy < HEIGHT && #[trigger] is_mirror(
                cx,
                cy,
                cwalk[t],
                qx,
                qy,
            ) ==> post[pixel_index(qx, qy)] == color,
        forall|qx: int, qy: int|
            0 <= qx < WIDTH && 0 <= qy < HEIGHT && !circle_paints(cx, cy, r, qx, qy)
                ==> post[pixel_index(qx, qy)] == orig[pixel_index(qx, qy)],
{
    assert forall|t: int, qx: int, qy: int|
        0 <= t < k + 1 && 0 <= qx < WIDTH && 0 <= qy < HEIGHT && #[trigger] is_mirror(
            cx,
            cy,
            cwalk[t],
            qx,
            qy,
        ) implies post[pixel_index(qx, qy)] == color by {
        if is_mirror(cx, cy, o, qx, qy) {
            assert(post[pixel_index(qx, qy)] == color);
        } else {
            assert(t < k);
            assert(pre[pixel_index(qx, qy)] == color);
            assert(post[pixel_index(qx, qy)] == pre[pixel_index(qx, qy)]);
        }
    }
    assert forall|qx: int, qy: int|
        0 <= qx < WIDTH && 0 <= qy < HEIGHT && !circle_paints(
            cx,
            cy,
            r,
            qx,
            qy,
        ) implies post[pixel_index(qx, qy)] == orig[pixel_index(qx, qy)] by {
        if is_mirror(cx, cy, o, qx, qy) {
            assert(0 <= k < circ_walk(r, r - 1, 0).len() && is_mirror(
                cx,
                cy,
                circ_walk(r, r - 1, 0)[k],
                qx,
                qy,
            ));
            assert(circle_paints(cx, cy, r, qx, qy));
        } else {
            assert(post[pixel_index(qx, qy)] == pre[pixel_index(qx, qy)]);
        }
    }
}

/// Paint the eight mirror images of the offset `(ox, oy)` around the
/// center `(cx, cy)`, clipping each against the screen: exactly the
/// on-screen mirror pixels are painted, everything else keeps its value
/// (so in particular every change stays within the square of half-width
/// `r` around the center).
#[verifier::rlimit(100)]
fn plot_mirrored(buffer: &mut Vec<u32>, cx: usize, cy: usize, ox: isize, oy: isize, r: isize, color: u32)
    requires
        old(buffer).len() == WIDTH * HEIGHT,
        cx <= MAX_COORD,
        cy <= MAX_COORD,
        0 <= ox <= r,
        0 <= oy <= r,
        r <= MAX_COORD,
    ensures
        final(buffer).len() == old(buffer).len(),
        forall|i: int| 0 <= i < final(buffer).len() ==> final(buffer)[i] == old(buffer)[i]
            || final(buffer)[i] == color,
        forall|qx: int, qy: int|
            0 <= qx < WIDTH && 0 <= qy < HEIGHT && is_mirror(
                cx as int,
                cy as int,
                (ox as int, oy as int),
                qx,
                qy,
            ) ==> final(buffer)[pixel_index(qx, qy)] == color,
        forall|qx: int, qy: int|
            0 <= qx < WIDTH && 0 <= qy < HEIGHT && !is_mirror(
                cx as int,
                cy as int,
                (ox as int, oy as int),
                qx,
                qy,
            ) ==> final(buffer)[pixel_index(qx, qy)] == old(buffer)[pixel_index(qx, qy)],
        forall|qx: int, qy: int|
            0 <= qx < WIDTH && 0 <= qy < HEIGHT && !in_box(
                qx,
                qy,
                cx - r,
                cy - r,
                cx + r,
                cy + r,
            ) ==> final(buffer)[pixel_index(qx, qy)] == old(buffer)[pixel_index(qx, qy)],
{
    let cxi: isize = cx as isize;
    let cyi: isize = cy as isize;
    let ghost box_x1: int = cx - r;
    let ghost box_y1: int = cy - r;
    let ghost box_x2: int = cx + r;
    let ghost box_y2: int = cy + r;

    plot_clipped(buffer, cxi + ox, cyi - oy, color);
    plot_clipped(buffer, cxi - ox, cyi - oy, color);
    plot_clipped(buffer, cxi - oy, cyi + ox, color);
    plot_clipped(buffer, cxi - oy, cyi - ox, color);
    plot_clipped(buffer, cxi - ox, cyi + oy, color);
    plot_clipped(buffer, cxi + oy, cyi + ox, color);
    plot_clipped(buffer, cxi + oy, cyi - ox, color);
    plot_clipped(buffer, cxi + ox, cyi + oy, color);

    proof {
        assert(in_box((cxi + ox) as int, (cyi + oy) as int, box_x1, box_y1, box_x2, box_y2));
        assert(in_box((cxi - ox) as int, (cyi + oy) as int, box_x1, box_y1, box_x2, box_y2));
        assert(in_box((cxi + ox) as int, (cyi - oy) as int, box_x1, box_y1, box_x2, box_y2));
        assert(in_box((cxi - ox) as int, (cyi - oy) as int, box_x1, box_y1, box_x2, box_y2));
        assert(in_box((cxi + oy) as int, (cyi + ox) as int, box_x1, box_y1, box_x2, box_y2));
        assert(in_box((cxi - oy) as int, (cyi + ox) as int, box_x1, box_y1, box_x2, box_y2));
        assert(in_box((cxi + oy) as int, (cyi - ox) as int, box_x1, box_y1, box_x2, box_y2));
        assert(in_box((cxi - oy) as int, (cyi - ox) as int, box_x1, box_y1, box_x2, box_y2));
    }
}

/// Draw the circle of the given radius centered at `(cx, cy)` with the
/// midpoint circle algorithm, clipping every pixel against the screen.
///
/// The contract is exact: the on-screen pixels of [`circle_paints`] (the
/// eight mirrors of every offset of the midpoint walk) are painted
/// `color` and every other pixel keeps its old value. The remaining
/// clauses restate consequences a caller reaches for first: only `color`
/// is ever written, nothing changes outside the square of half-width
/// `radius` around the center, and for a positive radius the four
/// extreme ring pixels (if on screen) are painted.
#[verifier::loop_isolation(false)]
#[verifier::rlimit(100)]
pub fn draw_circle(buffer: &mut Vec<u32>, cx: usize, cy: usize, radius: usize, color: u32)
    requires
        old(buffer).len() == WIDTH * HEIGHT,
        cx <= MAX_COORD,
        cy <= MAX_COORD,
        radius <= MAX_COORD,
    ensures
        final(buffer).len() == old(buffer).len(),
        forall|qx: int, qy: int|
            0 <= qx < WIDTH && 0 <= qy < HEIGHT && circle_paints(
                cx as int,
                cy as int,
                radius as int,
                qx,
                qy,
            ) ==> final(buffer)[pixel_index(qx, qy)] == color,
        forall|qx: int, qy: int|
            0 <= qx < WIDTH && 0 <= qy < HEIGHT && !circle_paints(
                cx as int,
                cy as int,
                radius as int,
                qx,
                qy,
            ) ==> final(buffer)[pixel_index(qx, qy)] == old(buffer)[pixel_index(qx, qy)],
        forall|i: int| 0 <= i < final(buffer).len() ==> final(buffer)[i] == old(buffer)[i]
            || final(buffer)[i] == color,
        forall|qx: int, qy: int|
            0 <= qx < WIDTH && 0 <= qy < HEIGHT && !in_box(
                qx,
                qy,
                cx - radius,
                cy - radius,
                cx + radius,
                cy + radius,
            ) ==> final(buffer)[pixel_index(qx, qy)] == old(buffer)[pixel_index(qx, qy)],
        radius >= 1 && cx + radius - 1 < WIDTH && cy < HEIGHT ==> final(buffer)[pixel_index(
            cx + radius - 1,
            cy as int,
        )] == color,
        radius >= 1 && 0 <= cx - (radius - 1) && cx - (radius - 1) < WIDTH && cy < HEIGHT
            ==> final(buffer)[pixel_index(cx - (radius - 1), cy as int)] == color,
        radius >= 1 && cx < WIDTH && cy + radius - 1 < HEIGHT ==> final(buffer)[pixel_index(
            cx as int,
            cy + radius - 1,
        )] == color,
        radius >= 1 && cx < WIDTH && 0 <= cy - (radius - 1) && cy - (radius - 1) < HEIGHT
            ==> final(buffer)[pixel_index(cx as int, cy - (radius - 1))] == color,
{
    let ri: isize = radius as isize;
    let r2: isize = (2 * radius) as isize;
    let mut x: isize = ri - 1;
    let mut y: isize = 0;
    let mut dx: isize = 1;
    let mut dy: isize = 1;
    let mut err: isize = dx - r2;

    let ghost cwalk = circ_walk(radius as int, radius as int - 1, 0);
    let ghost mut ck: int = 0;

    proof {
        assert(cwalk.skip(0) =~= cwalk);
        assert(err as int == circ_err(ri as int, x as int, y as int)) by (nonlinear_arith)
            requires
                err as int == 1 - 2 * (ri as int),
                x as int == ri as int - 1,
                y as int == 0,
                circ_err(ri as int, x as int, y as int) == (x as int) * (x as int) + (y as int) * (
                y as int) - (ri as int - 1) * (ri as int - 1) + 1 - 2 * (ri as int),
        ;
    }

    while x >= y
        invariant
            buffer.len() == WIDTH * HEIGHT,
            -1 <= x as int <= ri as int - 1,
            0 <= y as int <= x as int + 2,
            dx as int == 2 * (ri as int - 1 - x as int) + 1,
            dy as int == 2 * (y as int) + 1,
            x as int >= 0 ==> err as int <= 2 * (ri as int) + 2,
            (x as int) < 0 ==> err as int <= 2 * (ri as int) + 3,
            err as int >= -2 * (ri as int) - 2,
            err as int == circ_err(ri as int, x as int, y as int),
            0 <= ck <= cwalk.len(),
            circ_walk(ri as int, x as int, y as int) == cwalk.skip(ck),
            forall|t: int, qx: int, qy: int|
                0 <= t < ck && 0 <= qx < WIDTH && 0 <= qy < HEIGHT && #[trigger] is_mirror(
                    cx as int,
                    cy as int,
                    cwalk[t],
                    qx,
                    qy,
                ) ==> buffer[pixel_index(qx, qy)] == color,
            forall|qx: int, qy: int|
                0 <= qx < WIDTH && 0 <= qy < HEIGHT && !circle_paints(
                    cx as int,
                    cy as int,
                    ri as int,
                    qx,
                    qy,
                ) ==> buffer[pixel_index(qx, qy)] == old(buffer)[pixel_index(qx, qy)],
            forall|i: int| 0 <= i < buffer.len() ==> buffer[i] == old(buffer)[i] || buffer[i]
                == color,
            forall|qx: int, qy: int|
                0 <= qx < WIDTH && 0 <= qy < HEIGHT && !in_box(
                    qx,
                    qy,
                    cx - radius,
                    cy - radius,
                    cx + radius,
                    cy + radius,
                ) ==> buffer[pixel_index(qx, qy)] == old(buffer)[pixel_index(qx, qy)],
        decreases x - y + 2,
    {
        let ghost buf_entry = buffer@;
        plot_mirrored(buffer, cx, cy, x, y, ri, color);

        proof {
            lemma_circ_advance(cwalk, ck, ri as int, x as int, y as int);
            lemma_circle_paint_step(
                buf_entry,
                buffer@,
                old(buffer)@,
                cwalk,
                ck,
                cx as int,
                cy as int,
                ri as int,
                (x as int, y as int),
                color,
            );
            ck = ck + 1;
        }

        let ghost x0: int = x as int;
        let ghost y0: int = y as int;
        let ghost err0: int = err as int;
        let advance_y: bool = err <= 0;

        if advance_y {
            y = y + 1;
            err = err + dy;
            dy = dy + 2;
        }

        let ghost err_mid: int = err as int;
        let ghost y_mid: int = y as int;
        let retreat_x: bool = err > 0;

        proof {
            if advance_y {
                assert(err_mid == circ_err(ri as int, x0, y0 + 1)) by (nonlinear_arith)
                    requires
                        err_mid == err0 + 2 * y0 + 1,
                        err0 == x0 * x0 + y0 * y0 - (ri as int - 1) * (ri as int - 1) + 1 - 2 * (
                        ri as int),
                        circ_err(ri as int, x0, y0 + 1) == x0 * x0 + (y0 + 1) * (y0 + 1) - (
                        ri as int - 1) * (ri as int - 1) + 1 - 2 * (ri as int),
                ;
            }
        }

        if retreat_x {
            x = x - 1;
            dx = dx + 2;
            err = err + dx - r2;
        }

        proof {
            if retreat_x {
                assert(err as int == circ_err(ri as int, x0 - 1, y_mid)) by (nonlinear_arith)
                    requires
                        err as int == err_mid - 2 * (x0 - 1) - 1,
                        err_mid == x0 * x0 + y_mid * y_mid - (ri as int - 1) * (ri as int - 1) + 1
                            - 2 * (ri as int),
                        circ_err(ri as int, x0 - 1, y_mid) == (x0 - 1) * (x0 - 1) + y_mid * y_mid
                            - (ri as int - 1) * (ri as int - 1) + 1 - 2 * (ri as int),
                ;
            }
            assert((x as int, y as int) == circ_next(ri as int, x0, y0));
            assert(err as int == circ_err(ri as int, x as int, y as int));
        }
    }

    proof {
        assert(cwalk.skip(ck).len() == cwalk.len() - ck);
        assert(ck == cwalk.len());
        if radius >= 1 {
            assert(cwalk.len() >= 1 && cwalk[0] == (ri as int - 1, 0int));
            assert(is_mirror(cx as int, cy as int, cwalk[0], cx + (ri as int) - 1, cy as int));
            assert(is_mirror(cx as int, cy as int, cwalk[0], cx - ((ri as int) - 1), cy as int));
            assert(is_mirror(cx as int, cy as int, cwalk[0], cx as int, cy + (ri as int) - 1));
            assert(is_mirror(cx as int, cy as int, cwalk[0], cx as int, cy - ((ri as int) - 1)));
        }
    }
}

/// Leftmost column of a label of the given byte width centered at `x`,
/// clamped to the screen's left edge.
pub open spec fn text_origin_x(x: int, byte_len: int) -> int {
    let half = (8 * byte_len) / 2;
    if x >= half {
        x - half
    } else {
        0
    }
}

/// Row of a label centered at `y`, clamped to the screen's top edge.
pub open spec fn text_origin_y(y: int) -> int {
    if y >= 4 {
        y - 4
    } else {
        0
    }
}

/// One byte of the glyph table for the built-in font. Every glyph of the
/// table is blank, so every byte is zero.
fn font_byte(_index: usize) -> (b: u8)
    ensures
        b == 0u8,
{
    0u8
}

/// Draw a text label centered at `(x, y)`: eight pixel columns per
/// character, one row, each pixel taken from the font's glyph byte. The
/// built-in font is blank, so every pixel of the label's row region is
/// painted the background color 0; nothing outside that region changes.
#[verifier::loop_isolation(false)]
#[verifier::rlimit(100)]
pub fn draw_text(buffer: &mut Vec<u32>, text: &str, x: usize, y: usize, color: u32)
    requires
        old(buffer).len() == WIDTH * HEIGHT,
        x <= MAX_COORD,
        y <= MAX_COORD,
        text@.len() <= MAX_COORD,
        text.spec_bytes().len() <= MAX_COORD,
        forall|k: int| 0 <= k < text@.len() ==> (text@[k] as int) < 256,
    ensures
        final(buffer).len() == old(buffer).len(),
        forall|i: int| 0 <= i < final(buffer).len() ==> final(buffer)[i] == old(buffer)[i]
            || final(buffer)[i] == 0u32,
        forall|qx: int, qy: int|
            0 <= qx < WIDTH && 0 <= qy < HEIGHT && !(qy == text_origin_y(y as int)
                && text_origin_x(x as int, text.spec_bytes().len() as int) <= qx
                < text_origin_x(x as int, text.spec_bytes().len() as int) + 8 * text@.len())
                ==> final(buffer)[pixel_index(qx, qy)] == old(buffer)[pixel_index(qx, qy)],
        forall|px: int|
            text_origin_x(x as int, text.spec_bytes().len() as int) <= px < text_origin_x(
                x as int,
                text.spec_bytes().len() as int,
            ) + 8 * text@.len() && 0 <= px < WIDTH && text_origin_y(y as int) < HEIGHT
                ==> final(buffer)[pixel_index(px, text_origin_y(y as int))] == 0u32,
{
    let text_width: usize = text.len() * 8;
    let text_height: usize = 8;
    let half_w: usize = text_width / 2;
    let x_start: usize = if x >= half_w {
        x - half_w
    } else {
        0
    };
    let y_start: usize = if y >= text_height / 2 {
        y - text_height / 2
    } else {
        0
    };
    let ghost ox: int = text_origin_x(x as int, text.spec_bytes().len() as int);
    let ghost oy: int = text_origin_y(y as int);
    proof {
        assert(x_start as int == ox);
        assert(y_start as int == oy);
    }

    let n: usize = text.unicode_len();
    let mut i: usize = 0;
    while i < n
        invariant
            buffer.len() == WIDTH * HEIGHT,
            i <= n,
            forall|t: int| 0 <= t < buffer.len() ==> buffer[t] == old(buffer)[t] || buffer[t]
                == 0u32,
            forall|qx: int, qy: int|
                0 <= qx < WIDTH && 0 <= qy < HEIGHT && !(qy == oy && ox <= qx < ox + 8 * (
                n as int)) ==> buffer[pixel_index(qx, qy)] == old(buffer)[pixel_index(qx, qy)],
            forall|px: int|
                ox <= px < ox + 8 * (i as int) && 0 <= px < WIDTH && oy < HEIGHT ==> buffer[
                    pixel_index(px, oy)] == 0u32,
        decreases n - i,
    {
        let c: char = text.get_char(i);
        let cu: u32 = c as u32;
        let mut mask: u8 = 0x80;
        let mut j: usize = 0;
        while j < 8
            invariant
                buffer.len() == WIDTH * HEIGHT,
                j <= 8,
                i < n,
                forall|t: int| 0 <= t < buffer.len() ==> buffer[t] == old(buffer)[t] || buffer[t]
                    == 0u32,
                forall|qx: int, qy: int|
                    0 <= qx < WIDTH && 0 <= qy < HEIGHT && !(qy == oy && ox <= qx < ox + 8 * (
                    n as int)) ==> buffer[pixel_index(qx, qy)] == old(buffer)[pixel_index(qx, qy)],
                forall|px: int|
                    ox <= px < ox + 8 * (i as int) + (j as int) && 0 <= px < WIDTH && oy < HEIGHT
                        ==> buffer[pixel_index(px, oy)] == 0u32,
            decreases 8 - j,
        {
            let pixel_x: usize = x_start + i * 8 + j;
            let pixel_y: usize = y_start;

            let fb: u8 = font_byte((cu as usize) * 8 + j);
            proof {
                assert(fb & mask == 0u8) by (bit_vector)
                    requires
                        fb == 0u8,
                ;
            }
            let pixel_color: u32 = if fb & mask == 0 {
                0
            } else {
                color
            };
            proof {
                assert(pixel_x as int == ox + 8 * (i as int) + (j as int));
            }
            if pixel_x < WIDTH && pixel_y < HEIGHT {
                plot_clipped(buffer, pixel_x as isize, pixel_y as isize, pixel_color);
            }

            mask = mask >> 1;
            j = j + 1;
        }
        i = i + 1;
    }
}

/// Pixel `(qx, qy)` lies on the walk of the polyline's segment `kk`,
/// the one joining `points[kk]` to `points[kk + 1]`.
pub open spec fn segment_paints(points: Seq<(usize, usize)>, kk: int, qx: int, qy: int) -> bool {
    line_walk(
        points[kk].0 as int,
        points[kk].1 as int,
        points[kk + 1].0 as int,
        points[kk + 1].1 as int,
    ).contains((qx, qy))
}

/// Pixel `(qx, qy)` lies on the walk of some segment of the polyline:
/// what `draw_polyline` paints, before clipping.
pub open spec fn polyline_paints(points: Seq<(usize, usize)>, qx: int, qy: int) -> bool {
    exists|kk: int| 0 <= kk < points.len() - 1 && #[trigger] segment_paints(points, kk, qx, qy)
}

/// Draw line segments joining each pair of consecutive points: the
/// projected orbit trail of a body.
///
/// The contract is exact: the on-screen pixels of [`polyline_paints`]
/// (the walks of all the joining segments) are painted `color` and every
/// other pixel keeps its old value — so a list of fewer than two points
/// changes nothing. The remaining clauses restate consequences a caller
/// reaches for first: only `color` is ever written, and every on-screen
/// vertex that starts a non-degenerate segment is painted.
#[verifier::loop_isolation(false)]
#[verifier::rlimit(100)]
pub fn draw_polyline(buffer: &mut Vec<u32>, points: &Vec<(usize, usize)>, color: u32)
    requires
        old(buffer).len() == WIDTH * HEIGHT,
        forall|k: int| 0 <= k < points@.len() ==> points@[k].0 <= MAX_COORD && points@[k].1
            <= MAX_COORD,
    ensures
        final(buffer).len() == old(buffer).len(),
        forall|kk: int, qx: int, qy: int|
            0 <= kk < points@.len() - 1 && 0 <= qx < WIDTH && 0 <= qy < HEIGHT
                && #[trigger] segment_paints(points@, kk, qx, qy) ==> final(buffer)[pixel_index(
                qx,
                qy,
            )] == color,
        forall|qx: int, qy: int|
            0 <= qx < WIDTH && 0 <= qy < HEIGHT && !polyline_paints(points@, qx, qy)
                ==> final(buffer)[pixel_index(qx, qy)] == old(buffer)[pixel_index(qx, qy)],
        forall|i: int| 0 <= i < final(buffer).len() ==> final(buffer)[i] == old(buffer)[i]
            || final(buffer)[i] == color,
        forall|k: int|
            0 <= k < points@.len() - 1 && points@[k] != points@[k + 1] && points@[k].0 < WIDTH
                && points@[k].1 < HEIGHT ==> final(buffer)[pixel_index(
                points@[k].0 as int,
                points@[k].1 as int,
            )] == color,
{
    let n: usize = points.len();
    let mut i: usize = 1;
    while i < n
        invariant
            buffer.len() == WIDTH * HEIGHT,
            1 <= i,
            forall|kk: int, qx: int, qy: int|
                0 <= kk < i - 1 && 0 <= qx < WIDTH && 0 <= qy < HEIGHT && #[trigger] segment_paints(
                    points@,
                    kk,
                    qx,
                    qy,
                ) ==> buffer[pixel_index(qx, qy)] == color,
            forall|qx: int, qy: int|
                0 <= qx < WIDTH && 0 <= qy < HEIGHT && !polyline_paints(points@, qx, qy) ==> buffer[
                    pixel_index(qx, qy)] == old(buffer)[pixel_index(qx, qy)],
            forall|t: int| 0 <= t < buffer.len() ==> buffer[t] == old(buffer)[t] || buffer[t]
                == color,
            forall|k: int|
                0 <= k < i - 1 && points@[k] != points@[k + 1] && points@[k].0 < WIDTH
                    && points@[k].1 < HEIGHT ==> buffer[pixel_index(
                    points@[k].0 as int,
                    points@[k].1 as int,
                )] == color,
        decreases n - i,
    {
        let p: (usize, usize) = points[i - 1];
        let q: (usize, usize) = points[i];
        let ghost buf_entry = buffer@;
        draw_line(buffer, p.0, p.1, q.0, q.1, color);
        proof {
            let lw = line_walk(p.0 as int, p.1 as int, q.0 as int, q.1 as int);
            assert(points@[i - 1] == p);
            assert(points@[i as int] == q);
            assert forall|kk: int, qx: int, qy: int|
                0 <= kk < i && 0 <= qx < WIDTH && 0 <= qy < HEIGHT && #[trigger] segment_paints(
                    points@,
                    kk,
                    qx,
                    qy,
                ) implies buffer[pixel_index(qx, qy)] == color by {
                if kk == i - 1 {
                    // The pixel lies on the walk the call just painted.
                    assert(lw.contains((qx, qy)));
                    let t0 = choose|t: int| 0 <= t < lw.len() && lw[t] == (qx, qy);
                    assert(lw[t0].0 == qx && lw[t0].1 == qy);
                } else {
                    // Painted by an earlier segment; this call writes
                    // only `color`, so it stays painted.
                    assert(buf_entry[pixel_index(qx, qy)] == color);
                }
            }
            assert forall|qx: int, qy: int|
                0 <= qx < WIDTH && 0 <= qy < HEIGHT && !polyline_paints(
                    points@,
                    qx,
                    qy,
                ) implies buffer[pixel_index(qx, qy)] == old(buffer)[pixel_index(qx, qy)] by {
                if segment_paints(points@, i - 1, qx, qy) {
                    assert(polyline_paints(points@, qx, qy));
                }
                assert(!lw.contains((qx, qy)));
                assert(buffer[pixel_index(qx, qy)] == buf_entry[pixel_index(qx, qy)]);
            }
        }
        i = i + 1;
    }
}

} // verus!
