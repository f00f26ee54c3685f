//! The line rasterizer.
//!
//! A line between two grid points is walked one pixel at a time along the
//! axis on which it stretches further (its major axis), starting from the end
//! with the smaller coordinate on that axis. On the other axis each pixel
//! lies as near to the ideal line as a pixel can. [`draw_line`] states which
//! buffer cells that colours; [`bresenham`] does it with an integer error
//! accumulator and no division.

use crate::point::Point;
use crate::arith::{lemma_quotient_between, lemma_quotient_encloses};
use vstd::arithmetic::div_mod::lemma_div_pos_is_pos;
use vstd::prelude::*;

verus! {

/// The packed colour of a contour pixel: full green.
pub const CONTOUR: u32 = 0x0000_ff00;

/// The absolute value of `v`.
pub open spec fn magnitude(v: int) -> int {
    if v < 0 {
        -v
    } else {
        v
    }
}

/// Whether the line between `p1` and `p2` stretches at least as far
/// vertically as horizontally, so that it is walked row by row.
pub open spec fn is_steep(p1: Point, p2: Point) -> bool {
    magnitude(p2.y - p1.y) >= magnitude(p2.x - p1.x)
}

/// The end from which the line is walked: the one with the smaller
/// coordinate on the major axis.
pub open spec fn line_start(p1: Point, p2: Point) -> Point {
    if is_steep(p1, p2) {
        if p1.y <= p2.y {
            p1
        } else {
            p2
        }
    } else {
        if p1.x <= p2.x {
            p1
        } else {
            p2
        }
    }
}

/// The end at which the walk arrives.
pub open spec fn line_end(p1: Point, p2: Point) -> Point {
    if line_start(p1, p2) == p1 {
        p2
    } else {
        p1
    }
}

/// The number of steps along the major axis; the line has one pixel more.
pub open spec fn line_steps(p1: Point, p2: Point) -> int {
    if is_steep(p1, p2) {
        magnitude(p2.y - p1.y)
    } else {
        magnitude(p2.x - p1.x)
    }
}

/// How far a line has moved along its minor axis after `i` steps along the
/// major one, when it covers `minor` there in `major` steps: the integer
/// nearest to `i * minor / major`, an exact half rounding down.
pub open spec fn minor_offset(i: int, major: int, minor: int) -> int {
    if major == 0 {
        0
    } else {
        (2 * i * minor + major - 1) / (2 * major)
    }
}

/// Column and row of the `i`-th pixel of the line, counted from
/// [`line_start`].
pub open spec fn line_pixel(p1: Point, p2: Point, i: int) -> (int, int) {
    let s = line_start(p1, p2);
    let e = line_end(p1, p2);
    if is_steep(p1, p2) {
        let off = minor_offset(i, e.y - s.y, magnitude(e.x - s.x));
        (
            if e.x < s.x {
                s.x - off
            } else {
                s.x + off
            },
            s.y + i,
        )
    } else {
        let off = minor_offset(i, e.x - s.x, magnitude(e.y - s.y));
        (
            s.x + i,
            if e.y < s.y {
                s.y - off
            } else {
                s.y + off
            },
        )
    }
}

/// Where column `x` of row `y` lies in a row-major buffer whose rows are
/// `width` cells long.
pub open spec fn pixel_index(x: int, y: int, width: int) -> int {
    x + y * width
}

/// The buffer after the contour colour is written at column `x` of row `y`.
/// A position whose index lies outside the buffer is dropped.
pub open spec fn plotted(buf: Seq<u32>, x: int, y: int, width: int) -> Seq<u32> {
    let j = pixel_index(x, y, width);
    if 0 <= j < buf.len() {
        buf.update(j, CONTOUR)
    } else {
        buf
    }
}

/// Whether the `i`-th pixel of the line falls on buffer cell `j`.
pub open spec fn line_hits(p1: Point, p2: Point, width: int, i: int, j: int) -> bool {
    pixel_index(line_pixel(p1, p2, i).0, line_pixel(p1, p2, i).1, width) == j
}

/// Whether one of the first `n` pixels of the line falls on buffer cell `j`.
pub open spec fn on_line_prefix(p1: Point, p2: Point, width: int, n: int, j: int) -> bool {
    exists|i: int| 0 <= i < n && #[trigger] line_hits(p1, p2, width, i, j)
}

/// Whether a pixel of the line falls on buffer cell `j`.
pub open spec fn on_line(p1: Point, p2: Point, width: int, j: int) -> bool {
    on_line_prefix(p1, p2, width, line_steps(p1, p2) + 1, j)
}

/// The buffer after the first `n` pixels of the line are drawn into `buf`.
pub open spec fn draw_line_prefix(buf: Seq<u32>, p1: Point, p2: Point, width: int, n: int) -> Seq<
    u32,
> {
    Seq::new(
        buf.len(),
        |j: int|
            if on_line_prefix(p1, p2, width, n, j) {
                CONTOUR
            } else {
                buf[j]
            },
    )
}

/// The buffer after the line between `p1` and `p2` is drawn into `buf`: the
/// cells under a pixel of the line hold the contour colour, every other cell
/// is as before.
pub open spec fn draw_line(buf: Seq<u32>, p1: Point, p2: Point, width: int) -> Seq<u32> {
    draw_line_prefix(buf, p1, p2, width, line_steps(p1, p2) + 1)
}

/// One step along the major axis moves the line by one on the minor axis
/// exactly when the error accumulated so far is positive.
proof fn lemma_minor_offset_step(i: int, major: int, minor: int, error: int)
    requires
        0 <= i,
        0 <= minor <= major,
        error == 2 * minor * (i + 1) - major * (2 * minor_offset(i, major, minor) + 1),
    ensures
        minor_offset(i + 1, major, minor) == minor_offset(i, major, minor) + if error > 0 {
            1int
        } else {
            0int
        },
{
    if major > 0 {
        let k = minor_offset(i, major, minor);
        let d = 2 * major;
        let n = 2 * i * minor + major - 1;
        let n1 = 2 * (i + 1) * minor + major - 1;
        lemma_quotient_encloses(n, d);
        assert(n1 == n + 2 * minor) by (nonlinear_arith)
            requires
                n == 2 * i * minor + major - 1,
                n1 == 2 * (i + 1) * minor + major - 1,
        ;
        assert(k * d == 2 * major * k && (k + 1) * d == 2 * major * k + 2 * major) by (nonlinear_arith)
            requires
                d == 2 * major,
        ;
        assert(error == n1 - 2 * major * k - 2 * major + 1) by (nonlinear_arith)
            requires
                error == 2 * minor * (i + 1) - major * (2 * k + 1),
                n1 == 2 * (i + 1) * minor + major - 1,
        ;
        if error > 0 {
            lemma_quotient_between(n1, d, k + 1);
        } else {
            lemma_quotient_between(n1, d, k);
        }
    } else {
        assert(2 * minor * (i + 1) == 0) by (nonlinear_arith)
            requires
                minor == 0,
        ;
    }
}

/// No pixel lies further from the ideal line than half a pixel, measured
/// along the minor axis, and one that lies exactly half a pixel off lies on
/// the side of the line's start.
pub proof fn lemma_minor_offset_is_nearest(i: int, major: int, minor: int)
    requires
        0 < major,
    ensures
        -major < 2 * (i * minor - minor_offset(i, major, minor) * major) <= major,
{
    let k = minor_offset(i, major, minor);
    lemma_quotient_encloses(2 * i * minor + major - 1, 2 * major);
    assert(k * (2 * major) == 2 * (k * major)) by (nonlinear_arith);
    assert(2 * i * minor == 2 * (i * minor)) by (nonlinear_arith);
}

/// On its way from one end to the other the line stays between them on the
/// minor axis.
pub proof fn lemma_minor_offset_bounds(i: int, major: int, minor: int)
    requires
        0 <= i <= major,
        0 <= minor <= major,
    ensures
        0 <= minor_offset(i, major, minor) <= minor,
{
    if major > 0 {
        let d = 2 * major;
        let n = 2 * i * minor + major - 1;
        let q = n / d;
        assert(0 <= 2 * i * minor <= 2 * major * minor) by (nonlinear_arith)
            requires
                0 <= i <= major,
                0 <= minor,
        ;
        lemma_div_pos_is_pos(n, d);
        lemma_quotient_encloses(n, d);
        if q > minor {
            assert(q * d >= (minor + 1) * d) by (nonlinear_arith)
                requires
                    q >= minor + 1,
                    d > 0,
            ;
            assert((minor + 1) * d == 2 * major * minor + 2 * major) by (nonlinear_arith)
                requires
                    d == 2 * major,
            ;
        }
    }
}

/// Drawing no pixel leaves the buffer as it is.
pub proof fn lemma_draw_line_prefix_empty(buf: Seq<u32>, p1: Point, p2: Point, width: int)
    ensures
        draw_line_prefix(buf, p1, p2, width, 0) == buf,
{
    assert(draw_line_prefix(buf, p1, p2, width, 0) =~= buf);
}

/// Drawing one pixel more is plotting that pixel.
pub proof fn lemma_draw_line_prefix_extend(
    buf: Seq<u32>,
    p1: Point,
    p2: Point,
    width: int,
    n: int,
)
    requires
        0 <= n,
    ensures
        draw_line_prefix(buf, p1, p2, width, n + 1) == plotted(
            draw_line_prefix(buf, p1, p2, width, n),
            line_pixel(p1, p2, n).0,
            line_pixel(p1, p2, n).1,
            width,
        ),
{
    let shorter = draw_line_prefix(buf, p1, p2, width, n);
    let longer = draw_line_prefix(buf, p1, p2, width, n + 1);
    let next = plotted(shorter, line_pixel(p1, p2, n).0, line_pixel(p1, p2, n).1, width);
    assert forall|j: int| 0 <= j < buf.len() implies longer[j] == next[j] by {
        if on_line_prefix(p1, p2, width, n + 1, j) {
            let i = choose|i: int| 0 <= i < n + 1 && #[trigger] line_hits(p1, p2, width, i, j);
            if i < n {
                assert(on_line_prefix(p1, p2, width, n, j));
            }
        }
        if on_line_prefix(p1, p2, width, n, j) {
            let i = choose|i: int| 0 <= i < n && #[trigger] line_hits(p1, p2, width, i, j);
            assert(0 <= i < n + 1 && line_hits(p1, p2, width, i, j));
        }
        if line_hits(p1, p2, width, n, j) {
            assert(on_line_prefix(p1, p2, width, n + 1, j));
        }
    }
    assert(longer =~= next);
}

/// The error accumulator of the rasterizer when it draws the `i`-th pixel:
/// in units of `1 / major`, twice the amount by which the ideal line, one
/// step further along the major axis, lies beyond the middle between this
/// pixel's minor coordinate and the next.
spec fn error_at(i: int, major: int, minor: int) -> int {
    2 * minor * (i + 1) - major * (2 * minor_offset(i, major, minor) + 1)
}

/// The line starts on its first end, with the error the rasterizer sets out
/// with.
proof fn lemma_error_start(major: int, minor: int)
    requires
        0 <= minor <= major,
    ensures
        minor_offset(0, major, minor) == 0,
        error_at(0, major, minor) == 2 * minor - major,
{
    assert(2 * 0 * minor == 0) by (nonlinear_arith);
    if major > 0 {
        assert(0 * (2 * major) == 0) by (nonlinear_arith);
        lemma_quotient_between(major - 1, 2 * major, 0);
    }
    assert(minor_offset(0, major, minor) == 0);
    assert(2 * minor * (0 + 1) - major * (2 * 0 + 1) == 2 * minor - major) by (nonlinear_arith);
}

/// How offset and error move from one pixel to the next.
proof fn lemma_error_step(i: int, major: int, minor: int)
    requires
        0 <= i,
        0 <= minor <= major,
    ensures
        error_at(i, major, minor) > 0 ==> minor_offset(i + 1, major, minor) == minor_offset(
            i,
            major,
            minor,
        ) + 1 && error_at(i + 1, major, minor) == error_at(i, major, minor) + 2 * (minor - major),
        error_at(i, major, minor) <= 0 ==> minor_offset(i + 1, major, minor) == minor_offset(
            i,
            major,
            minor,
        ) && error_at(i + 1, major, minor) == error_at(i, major, minor) + 2 * minor,
{
    let k = minor_offset(i, major, minor);
    let k1 = minor_offset(i + 1, major, minor);
    let e = error_at(i, major, minor);
    let e1 = error_at(i + 1, major, minor);
    lemma_minor_offset_step(i, major, minor, e);
    assert(k1 == k + 1 ==> e1 == e + 2 * (minor - major)) by (nonlinear_arith)
        requires
            e == 2 * minor * (i + 1) - major * (2 * k + 1),
            e1 == 2 * minor * (i + 1 + 1) - major * (2 * k1 + 1),
    ;
    assert(k1 == k ==> e1 == e + 2 * minor) by (nonlinear_arith)
        requires
            e == 2 * minor * (i + 1) - major * (2 * k + 1),
            e1 == 2 * minor * (i + 1 + 1) - major * (2 * k1 + 1),
    ;
}

/// The line arrives on its other end.
pub proof fn lemma_minor_offset_ends(major: int, minor: int)
    requires
        0 <= minor <= major,
    ensures
        minor_offset(0, major, minor) == 0,
        minor_offset(major, major, minor) == minor,
{
    lemma_error_start(major, minor);
    if major > 0 {
        assert(minor * (2 * major) <= 2 * major * minor + major - 1 < minor * (2 * major) + 2
            * major) by (nonlinear_arith)
            requires
                0 < major,
        ;
        lemma_quotient_between(2 * major * minor + major - 1, 2 * major, minor);
    }
}

/// The line begins on one of its ends and finishes on the other.
pub proof fn lemma_line_joins_its_ends(p1: Point, p2: Point)
    ensures
        line_pixel(p1, p2, 0) == (line_start(p1, p2).x as int, line_start(p1, p2).y as int),
        line_pixel(p1, p2, line_steps(p1, p2)) == (
            line_end(p1, p2).x as int,
            line_end(p1, p2).y as int,
        ),
{
    let s = line_start(p1, p2);
    let e = line_end(p1, p2);
    if is_steep(p1, p2) {
        lemma_minor_offset_ends(e.y - s.y, magnitude(e.x - s.x));
    } else {
        lemma_minor_offset_ends(e.x - s.x, magnitude(e.y - s.y));
    }
}

/// Every pixel of the line lies in the rectangle that its two ends span.
pub proof fn lemma_line_stays_between_ends(p1: Point, p2: Point, i: int)
    requires
        0 <= i <= line_steps(p1, p2),
    ensures
        p1.x <= line_pixel(p1, p2, i).0 <= p2.x || p2.x <= line_pixel(p1, p2, i).0 <= p1.x,
        p1.y <= line_pixel(p1, p2, i).1 <= p2.y || p2.y <= line_pixel(p1, p2, i).1 <= p1.y,
{
    let s = line_start(p1, p2);
    let e = line_end(p1, p2);
    if is_steep(p1, p2) {
        lemma_minor_offset_bounds(i, e.y - s.y, magnitude(e.x - s.x));
    } else {
        lemma_minor_offset_bounds(i, e.x - s.x, magnitude(e.y - s.y));
    }
}

/// A line whose ends lie in one row covers that row from the left end to
/// the right end, and nothing else.
pub proof fn lemma_horizontal_line(p1: Point, p2: Point, i: int)
    requires
        p1.y == p2.y,
        0 <= i <= line_steps(p1, p2),
    ensures
        line_steps(p1, p2) == magnitude(p2.x - p1.x),
        line_pixel(p1, p2, i) == (
            (if p1.x <= p2.x {
                p1.x
            } else {
                p2.x
            }) + i,
            p1.y as int,
        ),
{
    if p1.x != p2.x {
        lemma_minor_offset_bounds(i, magnitude(p2.x - p1.x), 0);
    }
}

/// A line whose two ends are one point is the pixel at that point.
pub proof fn lemma_point_line(buf: Seq<u32>, p: Point, width: int)
    ensures
        draw_line(buf, p, p, width) == plotted(buf, p.x as int, p.y as int, width),
{
    lemma_draw_line_prefix_empty(buf, p, p, width);
    lemma_draw_line_prefix_extend(buf, p, p, width, 0);
    lemma_line_joins_its_ends(p, p);
}

/// A line is the same whichever of its ends is named first.
pub proof fn lemma_draw_line_symmetric(buf: Seq<u32>, p1: Point, p2: Point, width: int)
    ensures
        draw_line(buf, p2, p1, width) == draw_line(buf, p1, p2, width),
{
    let n = line_steps(p1, p2) + 1;
    assert(line_steps(p2, p1) + 1 == n);
    assert forall|i: int, j: int|
        line_hits(p2, p1, width, i, j) == line_hits(p1, p2, width, i, j) by {
        assert(line_pixel(p2, p1, i) == line_pixel(p1, p2, i));
    }
    assert forall|j: int|
        on_line_prefix(p2, p1, width, n, j) == on_line_prefix(p1, p2, width, n, j) by {
        if on_line_prefix(p2, p1, width, n, j) {
            let i = choose|i: int| 0 <= i < n && #[trigger] line_hits(p2, p1, width, i, j);
            assert(line_hits(p1, p2, width, i, j));
        }
        if on_line_prefix(p1, p2, width, n, j) {
            let i = choose|i: int| 0 <= i < n && #[trigger] line_hits(p1, p2, width, i, j);
            assert(line_hits(p2, p1, width, i, j));
        }
    }
    assert(draw_line(buf, p2, p1, width) =~= draw_line(buf, p1, p2, width));
}

/// Writes the contour colour at column `x` of row `y`. A position whose
/// index lies outside the buffer is dropped.
fn plot(buffer: &mut [u32], x: i64, y: i64, width: u32)
    requires
        i32::MIN <= x <= i32::MAX,
        i32::MIN <= y <= i32::MAX,
    ensures
        final(buffer)@ == plotted(old(buffer)@, x as int, y as int, width as int),
{
    assert(-0x8000_0000 * 0xffff_ffff <= y * width <= 0x7fff_ffff * 0xffff_ffff)
        by (nonlinear_arith)
        requires
            -0x8000_0000 <= y <= 0x7fff_ffff,
            0 <= width <= 0xffff_ffff,
    ;
    let index: i64 = x + y * (width as i64);
    if index >= 0 && (index as u64) < buffer.len() as u64 {
        buffer[index as usize] = CONTOUR;
    }
}

/// Draws a line that stretches further horizontally than vertically, from
/// its left end `p1` to its right end `p2`.
fn plot_not_steep(buffer: &mut [u32], p1: &Point, p2: &Point, width: u32)
    requires
        !is_steep(*p1, *p2),
        p1.x <= p2.x,
    ensures
        final(buffer)@ == draw_line(old(buffer)@, *p1, *p2, width as int),
{
    let dx: i64 = p2.x as i64 - p1.x as i64;
    let mut dy: i64 = p2.y as i64 - p1.y as i64;
    // lets the line fall as well as rise
    let adjust: i64 = if dy >= 0 {
        1
    } else {
        -1
    };
    if dy < 0 {
        dy = -dy;
    }
    let mut error: i64 = 2 * dy - dx;
    let mut y: i64 = p1.y as i64;
    let mut x: i64 = p1.x as i64;
    let ghost start = buffer@;
    proof {
        lemma_error_start(dx as int, dy as int);
        lemma_draw_line_prefix_empty(start, *p1, *p2, width as int);
    }
    while x <= p2.x as i64
        invariant
            !is_steep(*p1, *p2),
            p1.x <= x <= p2.x + 1,
            dx == p2.x - p1.x,
            dy == magnitude(p2.y - p1.y),
            adjust == (if p2.y < p1.y {
                -1int
            } else {
                1int
            }),
            y == (if p2.y < p1.y {
                p1.y - minor_offset(x - p1.x, dx as int, dy as int)
            } else {
                p1.y + minor_offset(x - p1.x, dx as int, dy as int)
            }),
            error == error_at(x - p1.x, dx as int, dy as int),
            2 * dy - 2 * dx <= error <= 2 * dy,
            buffer@ == draw_line_prefix(start, *p1, *p2, width as int, x - p1.x),
        decreases p2.x + 1 - x,
    {
        proof {
            lemma_minor_offset_bounds(x - p1.x, dx as int, dy as int);
            lemma_error_step(x - p1.x, dx as int, dy as int);
            lemma_draw_line_prefix_extend(start, *p1, *p2, width as int, x - p1.x);
        }
        plot(buffer, x, y, width);
        if error > 0 {
            y = y + adjust;
            error = error + 2 * (dy - dx);
        } else {
            error = error + 2 * dy;
        }
        x = x + 1;
    }
}

/// Draws a line that stretches at least as far vertically as horizontally,
/// from its upper end `p1` to its lower end `p2`.
fn plot_steep(buffer: &mut [u32], p1: &Point, p2: &Point, width: u32)
    requires
        is_steep(*p1, *p2),
        p1.y <= p2.y,
    ensures
        final(buffer)@ == draw_line(old(buffer)@, *p1, *p2, width as int),
{
    let mut dx: i64 = p2.x as i64 - p1.x as i64;
    let dy: i64 = p2.y as i64 - p1.y as i64;
    // lets the line lean to the left as well as to the right
    let adjust: i64 = if dx >= 0 {
        1
    } else {
        -1
    };
    if dx < 0 {
        dx = -dx;
    }
    let mut error: i64 = 2 * dx - dy;
    let mut x: i64 = p1.x as i64;
    let mut y: i64 = p1.y as i64;
    let ghost start = buffer@;
    proof {
        lemma_error_start(dy as int, dx as int);
        lemma_draw_line_prefix_empty(start, *p1, *p2, width as int);
    }
    while y <= p2.y as i64
        invariant
            is_steep(*p1, *p2),
            p1.y <= y <= p2.y + 1,
            dy == p2.y - p1.y,
            dx == magnitude(p2.x - p1.x),
            adjust == (if p2.x < p1.x {
                -1int
            } else {
                1int
            }),
            x == (if p2.x < p1.x {
                p1.x - minor_offset(y - p1.y, dy as int, dx as int)
            } else {
                p1.x + minor_offset(y - p1.y, dy as int, dx as int)
            }),
            error == error_at(y - p1.y, dy as int, dx as int),
            2 * dx - 2 * dy <= error <= 2 * dx,
            buffer@ == draw_line_prefix(start, *p1, *p2, width as int, y - p1.y),
        decreases p2.y + 1 - y,
    {
        proof {
            lemma_minor_offset_bounds(y - p1.y, dy as int, dx as int);
            lemma_error_step(y - p1.y, dy as int, dx as int);
            lemma_draw_line_prefix_extend(start, *p1, *p2, width as int, y - p1.y);
        }
        plot(buffer, x, y, width);
        if error > 0 {
            x = x + adjust;
            error = error + 2 * (dx - dy);
        } else {
            error = error + 2 * dx;
        }
        y = y + 1;
    }
}

/// Draws the line between `p1` and `p2` into `buffer`, whose rows are
/// `width` cells long: every cell under a pixel of the line takes the contour
/// colour, and no other cell changes. Pixels whose index lies outside the
/// buffer are dropped.
pub fn bresenham(buffer: &mut [u32], p1: &Point, p2: &Point, width: u32)
    ensures
        final(buffer)@ == draw_line(old(buffer)@, *p1, *p2, width as int),
{
    let dx: i64 = p2.x as i64 - p1.x as i64;
    let dy: i64 = p2.y as i64 - p1.y as i64;
    let run: i64 = if dx < 0 {
        -dx
    } else {
        dx
    };
    let rise: i64 = if dy < 0 {
        -dy
    } else {
        dy
    };
    proof {
        lemma_draw_line_symmetric(buffer@, *p1, *p2, width as int);
    }
    if rise < run {
        if p1.x <= p2.x {
            plot_not_steep(buffer, p1, p2, width);
        } else {
            plot_not_steep(buffer, p2, p1, width);
        }
    } else {
        if p1.y <= p2.y {
            plot_steep(buffer, p1, p2, width);
        } else {
            plot_steep(buffer, p2, p1, width);
        }
    }
}

} // verus!
