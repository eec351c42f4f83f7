//! The line rasterizer: from two endpoints to the pixels of the segment
//! between them, by integer arithmetic only.

use vstd::prelude::*;
use crate::framebuffer::Framebuffer;
use crate::geometry::{distance, magnitude, points_of};
use crate::surface::{lemma_paint_empty, lemma_paint_union};

verus! {

/// The number of steps from one endpoint to the other: the distance along
/// the major axis, the axis on which the endpoints lie further apart.
pub open spec fn line_steps(x0: int, y0: int, x1: int, y1: int) -> int {
    if magnitude(x1 - x0) >= magnitude(y1 - y0) {
        magnitude(x1 - x0)
    } else {
        magnitude(y1 - y0)
    }
}

/// One coordinate of the pixel at step `i` of `n`, on the way from `c0` to
/// `c1`: the integer nearest to `c0 + i * (c1 - c0) / n`, and the smaller
/// one where two integers are equally near.
pub open spec fn line_coordinate(c0: int, c1: int, n: int, i: int) -> int {
    if n == 0 {
        c0
    } else {
        c0 + (2 * i * (c1 - c0) + n - 1) / (2 * n)
    }
}

/// The pixel at step `i` of the line from `(x0, y0)` to `(x1, y1)`.
pub open spec fn line_point(x0: int, y0: int, x1: int, y1: int, i: int) -> (int, int) {
    let n = line_steps(x0, y0, x1, y1);
    (line_coordinate(x0, x1, n, i), line_coordinate(y0, y1, n, i))
}

/// The pixels of the line from `(x0, y0)` to `(x1, y1)` in the order in
/// which they are visited: one pixel per step along the major axis, both
/// endpoints included.
pub open spec fn line_points(x0: int, y0: int, x1: int, y1: int) -> Seq<(int, int)> {
    Seq::new(
        (line_steps(x0, y0, x1, y1) + 1) as nat,
        |i: int| line_point(x0, y0, x1, y1, i),
    )
}

/// The pixels of the line from `(x0, y0)` to `(x1, y1)` as a set.
pub open spec fn line_pixels(x0: int, y0: int, x1: int, y1: int) -> Set<(int, int)> {
    Set::new(
        |p: (int, int)|
            exists|i: int|
                0 <= i <= line_steps(x0, y0, x1, y1) && p == #[trigger] line_point(
                    x0,
                    y0,
                    x1,
                    y1,
                    i,
                ),
    )
}

/// The state of the error-term walk after `i` of `n` steps, for one axis
/// that goes from `c0` to `c1` with `|c1 - c0| <= n`: the walk stands at
/// coordinate `c`, and `err` says how far ahead of `c` the ideal line is in
/// the direction of travel, in units of `1 / (2 * n)` pixel. Going up,
/// `err` stays in `(-n, n]`; going down, in `[-n, n)`: a line that passes
/// exactly between two pixels takes the one with the smaller coordinate.
spec fn walk_state(c0: int, c1: int, n: int, i: int, c: int, err: int) -> bool {
    if c1 >= c0 {
        &&& 2 * (n * (c - c0)) + err == 2 * (i * (c1 - c0))
        &&& -n < err <= n
    } else {
        &&& 2 * (n * (c0 - c)) + err == 2 * (i * (c0 - c1))
        &&& -n <= err < n
    }
}

/// A coordinate in a walk state is the one that `line_coordinate` names, and
/// lies between the two ends.
proof fn lemma_walk_state_is_coordinate(c0: int, c1: int, n: int, i: int, c: int, err: int)
    requires
        n > 0,
        0 <= i <= n,
        magnitude(c1 - c0) <= n,
        walk_state(c0, c1, n, i, c, err),
    ensures
        c == line_coordinate(c0, c1, n, i),
        c0 <= c <= c1 || c1 <= c <= c0,
{
    let x = 2 * i * (c1 - c0) + n - 1;
    if c1 >= c0 {
        let r = err + n - 1;
        assert(x == (c - c0) * (2 * n) + r) by (nonlinear_arith)
            requires
                x == 2 * i * (c1 - c0) + n - 1,
                r == err + n - 1,
                2 * (n * (c - c0)) + err == 2 * (i * (c1 - c0)),
        ;
        vstd::arithmetic::div_mod::lemma_fundamental_div_mod_converse(x, 2 * n, c - c0, r);
        assert(0 <= c - c0 <= c1 - c0) by (nonlinear_arith)
            requires
                2 * (n * (c - c0)) + err == 2 * (i * (c1 - c0)),
                -n < err <= n,
                0 <= i <= n,
                n > 0,
                0 <= c1 - c0 <= n,
        ;
    } else {
        let r = n - 1 - err;
        assert(x == (c - c0) * (2 * n) + r) by (nonlinear_arith)
            requires
                x == 2 * i * (c1 - c0) + n - 1,
                r == n - 1 - err,
                2 * (n * (c0 - c)) + err == 2 * (i * (c0 - c1)),
        ;
        vstd::arithmetic::div_mod::lemma_fundamental_div_mod_converse(x, 2 * n, c - c0, r);
        assert(0 <= c0 - c <= c0 - c1) by (nonlinear_arith)
            requires
                2 * (n * (c0 - c)) + err == 2 * (i * (c0 - c1)),
                -n <= err < n,
                0 <= i <= n,
                n > 0,
                0 <= c0 - c1 <= n,
        ;
    }
}

/// One step along the major axis: one pixel toward `c1`. The coordinate
/// follows the ideal line exactly, so its error term stays zero.
fn major_step(c0: usize, c1: usize, c: usize, Ghost(i): Ghost<int>) -> (next: usize)
    requires
        0 <= i < magnitude(c1 - c0),
        walk_state(c0 as int, c1 as int, magnitude(c1 - c0), i, c as int, 0),
    ensures
        walk_state(c0 as int, c1 as int, magnitude(c1 - c0), i + 1, next as int, 0),
{
    let ghost n = magnitude(c1 - c0);
    proof {
        lemma_walk_state_is_coordinate(c0 as int, c1 as int, n, i, c as int, 0);
        assert(magnitude(c - c0) == i) by (nonlinear_arith)
            requires
                2 * (n * magnitude(c - c0)) == 2 * (i * n),
                n > 0,
        ;
        assert(n * (i + 1) == (i + 1) * n) by (nonlinear_arith);
    }
    if c1 >= c0 {
        c + 1
    } else {
        c - 1
    }
}

/// One step along the minor axis, whose ends are `m <= n` pixels apart:
/// the error term grows by `2 * m`, and once the ideal line has passed the
/// middle between two pixels the coordinate moves one pixel toward `c1`.
/// Going up it moves when the line is beyond the middle, going down when
/// the line has reached it.
fn minor_step(
    c0: usize,
    c1: usize,
    n: usize,
    m: usize,
    c: usize,
    err: i128,
    Ghost(i): Ghost<int>,
) -> (next: (usize, i128))
    requires
        0 <= i < n,
        m == magnitude(c1 - c0),
        m <= n,
        walk_state(c0 as int, c1 as int, n as int, i, c as int, err as int),
    ensures
        walk_state(c0 as int, c1 as int, n as int, i + 1, next.0 as int, next.1 as int),
{
    proof {
        lemma_walk_state_is_coordinate(c0 as int, c1 as int, n as int, i, c as int, err as int);
    }
    let grown = err + 2 * (m as i128);
    let crossed = if c1 >= c0 {
        grown > n as i128
    } else {
        grown >= n as i128
    };
    let ghost d = magnitude(c1 - c0);
    assert((i + 1) * d == i * d + d) by (nonlinear_arith);
    if crossed {
        let ghost off = magnitude(c - c0);
        assert(n * (off + 1) == n * off + n) by (nonlinear_arith);
        assert(off + 1 <= d) by (nonlinear_arith)
            requires
                2 * (n * off) + err == 2 * (i * d),
                err + 2 * d >= n,
                0 <= i < n,
                0 <= d <= n,
                0 <= off,
        ;
        if c1 >= c0 {
            (c + 1, grown - 2 * (n as i128))
        } else {
            (c - 1, grown - 2 * (n as i128))
        }
    } else {
        (c, grown)
    }
}

/// The pixels of the line from `(x0, y0)` to `(x1, y1)`, in order from the
/// first endpoint to the second.
///
/// The walk takes one step per pixel along the major axis. On the minor
/// axis an error term accumulates the slope and moves the coordinate by one
/// each time the ideal line has passed the middle between two pixels.
/// Nothing is clipped: the endpoints may lie anywhere.
pub fn rasterize_line(x0: usize, y0: usize, x1: usize, y1: usize) -> (pixels: Vec<(usize, usize)>)
    ensures
        points_of(pixels@) == line_points(x0 as int, y0 as int, x1 as int, y1 as int),
{
    let dx = distance(x1, x0);
    let dy = distance(y1, y0);
    let x_is_major = dx >= dy;
    let n = if x_is_major {
        dx
    } else {
        dy
    };
    let mut pixels: Vec<(usize, usize)> = Vec::new();
    let mut x = x0;
    let mut y = y0;
    let mut err: i128 = 0;
    let mut i: usize = 0;
    pixels.push((x, y));
    proof {
        assert(n * (x - x0) == 0 && n * (x0 - x) == 0) by (nonlinear_arith)
            requires
                x == x0,
        ;
        assert(n * (y - y0) == 0 && n * (y0 - y) == 0) by (nonlinear_arith)
            requires
                y == y0,
        ;
        if n > 0 {
            lemma_walk_state_is_coordinate(x0 as int, x1 as int, n as int, 0, x as int, 0);
            lemma_walk_state_is_coordinate(y0 as int, y1 as int, n as int, 0, y as int, 0);
        }
    }
    while i < n
        invariant
            i <= n,
            n == line_steps(x0 as int, y0 as int, x1 as int, y1 as int),
            dx == magnitude(x1 - x0),
            dy == magnitude(y1 - y0),
            x_is_major == (dx >= dy),
            n > 0 ==> walk_state(
                x0 as int,
                x1 as int,
                n as int,
                i as int,
                x as int,
                if x_is_major {
                    0
                } else {
                    err as int
                },
            ),
            n > 0 ==> walk_state(
                y0 as int,
                y1 as int,
                n as int,
                i as int,
                y as int,
                if x_is_major {
                    err as int
                } else {
                    0
                },
            ),
            pixels@.len() == i + 1,
            forall|j: int|
                0 <= j <= i ==> (#[trigger] pixels@[j].0 as int, pixels@[j].1 as int) == line_point(
                    x0 as int,
                    y0 as int,
                    x1 as int,
                    y1 as int,
                    j,
                ),
        decreases n - i,
    {
        if x_is_major {
            x = major_step(x0, x1, x, Ghost(i as int));
            let minor = minor_step(y0, y1, n, dy, y, err, Ghost(i as int));
            y = minor.0;
            err = minor.1;
        } else {
            y = major_step(y0, y1, y, Ghost(i as int));
            let minor = minor_step(x0, x1, n, dx, x, err, Ghost(i as int));
            x = minor.0;
            err = minor.1;
        }
        i += 1;
        proof {
            let (err_x, err_y) = if x_is_major {
                (0, err as int)
            } else {
                (err as int, 0)
            };
            lemma_walk_state_is_coordinate(x0 as int, x1 as int, n as int, i as int, x as int, err_x);
            lemma_walk_state_is_coordinate(y0 as int, y1 as int, n as int, i as int, y as int, err_y);
        }
        pixels.push((x, y));
    }
    assert(points_of(pixels@) =~= line_points(x0 as int, y0 as int, x1 as int, y1 as int));
    pixels
}

/// An axis starts at `c0` and, when its ends are at most `n` apart, ends
/// at `c1`.
pub proof fn lemma_coordinate_ends(c0: int, c1: int, n: int)
    requires
        magnitude(c1 - c0) <= n,
    ensures
        line_coordinate(c0, c1, n, 0) == c0,
        line_coordinate(c0, c1, n, n) == c1,
{
    if n > 0 {
        assert(2 * 0 * (c1 - c0) == 0);
        vstd::arithmetic::div_mod::lemma_fundamental_div_mod_converse(n - 1, 2 * n, 0, n - 1);
        assert(2 * n * (c1 - c0) + n - 1 == (c1 - c0) * (2 * n) + (n - 1)) by (nonlinear_arith);
        vstd::arithmetic::div_mod::lemma_fundamental_div_mod_converse(
            2 * n * (c1 - c0) + n - 1,
            2 * n,
            c1 - c0,
            n - 1,
        );
    }
}

/// Walking an axis backwards visits the same coordinates in reverse: the
/// rounding does not depend on the direction of travel.
pub proof fn lemma_coordinate_reversed(c0: int, c1: int, n: int, i: int)
    requires
        magnitude(c1 - c0) <= n,
    ensures
        line_coordinate(c1, c0, n, n - i) == line_coordinate(c0, c1, n, i),
{
    if n > 0 {
        let x = 2 * i * (c1 - c0) + n - 1;
        let q = x / (2 * n);
        let r = x % (2 * n);
        vstd::arithmetic::div_mod::lemma_fundamental_div_mod(x, 2 * n);
        vstd::arithmetic::div_mod::lemma_mod_bound(x, 2 * n);
        let back = 2 * (n - i) * (c0 - c1) + n - 1;
        assert(back == (c0 - c1 + q) * (2 * n) + r) by (nonlinear_arith)
            requires
                back == 2 * (n - i) * (c0 - c1) + n - 1,
                x == 2 * i * (c1 - c0) + n - 1,
                x == (2 * n) * q + r,
        ;
        vstd::arithmetic::div_mod::lemma_fundamental_div_mod_converse(back, 2 * n, c0 - c1 + q, r);
    }
}

/// The line starts at its first endpoint and ends at its second.
pub proof fn lemma_line_has_endpoints(x0: int, y0: int, x1: int, y1: int)
    ensures
        line_points(x0, y0, x1, y1).first() == (x0, y0),
        line_points(x0, y0, x1, y1).last() == (x1, y1),
        line_pixels(x0, y0, x1, y1).contains((x0, y0)),
        line_pixels(x0, y0, x1, y1).contains((x1, y1)),
{
    let n = line_steps(x0, y0, x1, y1);
    lemma_coordinate_ends(x0, x1, n);
    lemma_coordinate_ends(y0, y1, n);
    assert(line_point(x0, y0, x1, y1, 0) == (x0, y0));
    assert(line_point(x0, y0, x1, y1, n) == (x1, y1));
}

/// A line between equal endpoints is that one pixel.
pub proof fn lemma_line_single_point(x: int, y: int)
    ensures
        line_points(x, y, x, y) == seq![(x, y)],
        line_pixels(x, y, x, y) == set![(x, y)],
{
    assert(line_points(x, y, x, y) =~= seq![(x, y)]);
    assert(line_point(x, y, x, y, 0) == (x, y));
    assert(line_pixels(x, y, x, y) =~= set![(x, y)]);
}

/// Swapping the endpoints reverses the order of the pixels and changes
/// nothing else, so both directions cover the same set of pixels.
pub proof fn lemma_line_symmetric(x0: int, y0: int, x1: int, y1: int)
    ensures
        line_points(x1, y1, x0, y0) == line_points(x0, y0, x1, y1).reverse(),
        line_pixels(x1, y1, x0, y0) == line_pixels(x0, y0, x1, y1),
{
    let n = line_steps(x0, y0, x1, y1);
    assert(line_steps(x1, y1, x0, y0) == n);
    assert forall|i: int| #[trigger]
        line_point(x1, y1, x0, y0, n - i) == line_point(x0, y0, x1, y1, i) by {
        lemma_coordinate_reversed(x0, x1, n, i);
        lemma_coordinate_reversed(y0, y1, n, i);
    }
    let forward = line_points(x0, y0, x1, y1);
    let backward = line_points(x1, y1, x0, y0);
    assert forall|j: int| 0 <= j <= n implies backward[j] == forward.reverse()[j] by {
        assert(line_point(x1, y1, x0, y0, n - (n - j)) == line_point(x0, y0, x1, y1, n - j));
    }
    assert(backward =~= forward.reverse());
    assert forall|p: (int, int)|
        line_pixels(x1, y1, x0, y0).contains(p) == line_pixels(x0, y0, x1, y1).contains(p) by {
        if line_pixels(x0, y0, x1, y1).contains(p) {
            let i = choose|i: int| 0 <= i <= n && p == #[trigger] line_point(x0, y0, x1, y1, i);
            assert(line_point(x1, y1, x0, y0, n - i) == p);
        }
        if line_pixels(x1, y1, x0, y0).contains(p) {
            let j = choose|j: int| 0 <= j <= n && p == #[trigger] line_point(x1, y1, x0, y0, j);
            assert(line_point(x1, y1, x0, y0, n - (n - j)) == line_point(x0, y0, x1, y1, n - j));
        }
    }
    assert(line_pixels(x1, y1, x0, y0) =~= line_pixels(x0, y0, x1, y1));
}

/// The set of pixels of a line holds exactly the entries of its sequence
/// of pixels.
pub proof fn lemma_line_pixels_are_points(x0: int, y0: int, x1: int, y1: int)
    ensures
        line_pixels(x0, y0, x1, y1) == line_points(x0, y0, x1, y1).to_set(),
{
    let points = line_points(x0, y0, x1, y1);
    let n = line_steps(x0, y0, x1, y1);
    assert forall|p: (int, int)|
        line_pixels(x0, y0, x1, y1).contains(p) == points.to_set().contains(p) by {
        if line_pixels(x0, y0, x1, y1).contains(p) {
            let i = choose|i: int| 0 <= i <= n && p == #[trigger] line_point(x0, y0, x1, y1, i);
            assert(points[i] == p);
        }
        if points.to_set().contains(p) {
            let i = choose|i: int| 0 <= i < points.len() && points[i] == p;
            assert(p == line_point(x0, y0, x1, y1, i));
        }
    }
    assert(line_pixels(x0, y0, x1, y1) =~= points.to_set());
}

/// From one step to the next a coordinate stays or moves one pixel toward
/// the far end, and it never leaves the range between the two ends.
pub proof fn lemma_coordinate_step(c0: int, c1: int, n: int, i: int)
    requires
        n > 0,
        0 <= i < n,
        magnitude(c1 - c0) <= n,
    ensures
        c1 >= c0 ==> c0 <= line_coordinate(c0, c1, n, i) <= line_coordinate(c0, c1, n, i + 1)
            <= line_coordinate(c0, c1, n, i) + 1 && line_coordinate(c0, c1, n, i + 1) <= c1,
        c1 <= c0 ==> c0 >= line_coordinate(c0, c1, n, i) >= line_coordinate(c0, c1, n, i + 1)
            >= line_coordinate(c0, c1, n, i) - 1 && line_coordinate(c0, c1, n, i + 1) >= c1,
        magnitude(c1 - c0) == n ==> line_coordinate(c0, c1, n, i + 1) != line_coordinate(
            c0,
            c1,
            n,
            i,
        ),
{
    let d = c1 - c0;
    let x = 2 * i * d + n - 1;
    let q = x / (2 * n);
    let r = x % (2 * n);
    vstd::arithmetic::div_mod::lemma_fundamental_div_mod(x, 2 * n);
    vstd::arithmetic::div_mod::lemma_mod_bound(x, 2 * n);
    let next = 2 * (i + 1) * d + n - 1;
    assert(next == x + 2 * d) by (nonlinear_arith)
        requires
            next == 2 * (i + 1) * d + n - 1,
            x == 2 * i * d + n - 1,
    ;
    if d >= 0 {
        if r + 2 * d < 2 * n {
            assert(next == q * (2 * n) + (r + 2 * d)) by (nonlinear_arith)
                requires
                    next == x + 2 * d,
                    x == (2 * n) * q + r,
            ;
            vstd::arithmetic::div_mod::lemma_fundamental_div_mod_converse(
                next,
                2 * n,
                q,
                r + 2 * d,
            );
        } else {
            assert(next == (q + 1) * (2 * n) + (r + 2 * d - 2 * n)) by (nonlinear_arith)
                requires
                    next == x + 2 * d,
                    x == (2 * n) * q + r,
            ;
            vstd::arithmetic::div_mod::lemma_fundamental_div_mod_converse(
                next,
                2 * n,
                q + 1,
                r + 2 * d - 2 * n,
            );
        }
        assert(x >= 0) by (nonlinear_arith)
            requires
                x == 2 * i * d + n - 1,
                i >= 0,
                d >= 0,
                n > 0,
        ;
        assert(0 <= q) by (nonlinear_arith)
            requires
                x == (2 * n) * q + r,
                0 <= r < 2 * n,
                x >= 0,
                n > 0,
        ;
        vstd::arithmetic::div_mod::lemma_fundamental_div_mod(next, 2 * n);
        vstd::arithmetic::div_mod::lemma_mod_bound(next, 2 * n);
        assert(2 * (i + 1) * d <= 2 * n * d) by (nonlinear_arith)
            requires
                i + 1 <= n,
                d >= 0,
        ;
        assert(next / (2 * n) <= d) by (nonlinear_arith)
            requires
                next == (2 * n) * (next / (2 * n)) + next % (2 * n),
                0 <= next % (2 * n),
                next <= 2 * n * d + n - 1,
                n > 0,
        ;
    }
    if d <= 0 {
        if r + 2 * d >= 0 {
            assert(next == q * (2 * n) + (r + 2 * d)) by (nonlinear_arith)
                requires
                    next == x + 2 * d,
                    x == (2 * n) * q + r,
            ;
            vstd::arithmetic::div_mod::lemma_fundamental_div_mod_converse(
                next,
                2 * n,
                q,
                r + 2 * d,
            );
        } else {
            assert(next == (q - 1) * (2 * n) + (r + 2 * d + 2 * n)) by (nonlinear_arith)
                requires
                    next == x + 2 * d,
                    x == (2 * n) * q + r,
            ;
            vstd::arithmetic::div_mod::lemma_fundamental_div_mod_converse(
                next,
                2 * n,
                q - 1,
                r + 2 * d + 2 * n,
            );
        }
        assert(2 * i * d <= 0) by (nonlinear_arith)
            requires
                i >= 0,
                d <= 0,
        ;
        assert(q <= 0) by (nonlinear_arith)
            requires
                x == (2 * n) * q + r,
                0 <= r < 2 * n,
                x <= n - 1,
                n > 0,
        ;
        vstd::arithmetic::div_mod::lemma_fundamental_div_mod(next, 2 * n);
        vstd::arithmetic::div_mod::lemma_mod_bound(next, 2 * n);
        assert(2 * (i + 1) * d >= 2 * n * d) by (nonlinear_arith)
            requires
                i + 1 <= n,
                d <= 0,
        ;
        assert(next / (2 * n) >= d) by (nonlinear_arith)
            requires
                next == (2 * n) * (next / (2 * n)) + next % (2 * n),
                next % (2 * n) < 2 * n,
                next >= 2 * n * d + n - 1,
                n > 0,
        ;
    }
}

/// Every pixel of a line lies in the rectangle that its endpoints span.
pub proof fn lemma_line_in_bounding_box(x0: int, y0: int, x1: int, y1: int, i: int)
    requires
        0 <= i <= line_steps(x0, y0, x1, y1),
    ensures
        x0 <= line_point(x0, y0, x1, y1, i).0 <= x1 || x1 <= line_point(x0, y0, x1, y1, i).0
            <= x0,
        y0 <= line_point(x0, y0, x1, y1, i).1 <= y1 || y1 <= line_point(x0, y0, x1, y1, i).1
            <= y0,
{
    let n = line_steps(x0, y0, x1, y1);
    lemma_coordinate_ends(x0, x1, n);
    lemma_coordinate_ends(y0, y1, n);
    if 0 < i {
        lemma_coordinate_step(x0, x1, n, i - 1);
        lemma_coordinate_step(y0, y1, n, i - 1);
    }
}

/// The line is a connected path: from one pixel to the next, each
/// coordinate changes by at most one, and at least one of them changes.
pub proof fn lemma_line_is_connected(x0: int, y0: int, x1: int, y1: int, i: int)
    requires
        0 <= i < line_steps(x0, y0, x1, y1),
    ensures
        magnitude(line_point(x0, y0, x1, y1, i + 1).0 - line_point(x0, y0, x1, y1, i).0) <= 1,
        magnitude(line_point(x0, y0, x1, y1, i + 1).1 - line_point(x0, y0, x1, y1, i).1) <= 1,
        line_point(x0, y0, x1, y1, i + 1) != line_point(x0, y0, x1, y1, i),
{
    let n = line_steps(x0, y0, x1, y1);
    lemma_coordinate_step(x0, x1, n, i);
    lemma_coordinate_step(y0, y1, n, i);
}

/// Along the axis whose ends are `n` apart the coordinate moves by one at
/// every step.
proof fn lemma_major_coordinate(c0: int, c1: int, n: int, i: int)
    requires
        n > 0,
        0 <= i <= n,
        magnitude(c1 - c0) == n,
    ensures
        line_coordinate(c0, c1, n, i) == if c1 >= c0 {
            c0 + i
        } else {
            c0 - i
        },
    decreases i,
{
    if i == 0 {
        lemma_coordinate_ends(c0, c1, n);
    } else {
        lemma_major_coordinate(c0, c1, n, i - 1);
        lemma_coordinate_step(c0, c1, n, i - 1);
    }
}

/// The line visits no pixel twice.
pub proof fn lemma_line_visits_once(x0: int, y0: int, x1: int, y1: int, i: int, j: int)
    requires
        0 <= i < j <= line_steps(x0, y0, x1, y1),
    ensures
        line_point(x0, y0, x1, y1, i) != line_point(x0, y0, x1, y1, j),
{
    let n = line_steps(x0, y0, x1, y1);
    if magnitude(x1 - x0) == n {
        lemma_major_coordinate(x0, x1, n, i);
        lemma_major_coordinate(x0, x1, n, j);
    } else {
        lemma_major_coordinate(y0, y1, n, i);
        lemma_major_coordinate(y0, y1, n, j);
    }
}

/// The first `k` entries of `points`, as a set.
spec fn first_points(points: Seq<(int, int)>, k: int) -> Set<(int, int)> {
    Set::new(|p: (int, int)| exists|j: int| 0 <= j < k && j < points.len() && points[j] == p)
}

impl Framebuffer {
    /// Draws the line from `(x0, y0)` to `(x1, y1)` in the current color.
    /// Pixels of the line outside the surface are dropped.
    pub fn line(&mut self, x0: usize, y0: usize, x1: usize, y1: usize)
        ensures
            final(self)@ == old(self)@.paint(
                line_pixels(x0 as int, y0 as int, x1 as int, y1 as int),
            ),
    {
        let pixels = rasterize_line(x0, y0, x1, y1);
        let ghost points = points_of(pixels@);
        let mut k: usize = 0;
        proof {
            assert(first_points(points, 0) =~= Set::empty());
            lemma_paint_empty(self@);
        }
        while k < pixels.len()
            invariant
                k <= pixels@.len(),
                points == points_of(pixels@),
                self@ == old(self)@.paint(first_points(points, k as int)),
            decreases pixels@.len() - k,
        {
            let p = pixels[k];
            self.plot(p.0, p.1);
            proof {
                let done = first_points(points, k as int);
                let one = set![(p.0 as int, p.1 as int)];
                lemma_paint_union(old(self)@, done, one);
                assert(points[k as int] == (p.0 as int, p.1 as int));
                assert(done.union(one) =~= first_points(points, k + 1));
            }
            k += 1;
        }
        proof {
            lemma_line_pixels_are_points(x0 as int, y0 as int, x1 as int, y1 as int);
            assert(first_points(points, k as int) =~= points.to_set());
        }
    }
}

} // verus!
