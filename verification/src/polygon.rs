//! Closed polygons: outline drawing and even-odd scanline fill.
//!
//! A polygon is an ordered list of vertices. It is closed implicitly: the
//! last vertex connects back to the first. Fewer than three vertices form
//! no polygon, and drawing or filling such a list does nothing.

use vstd::prelude::*;
use crate::framebuffer::Framebuffer;
use crate::line::line_pixels;
use crate::geometry::{
    distance, ints_of, lemma_scaled_part_bounded, magnitude, points_of, scale_down, truncating_div,
};

verus! {

/// The vertex at which edge `k` starts. Edge `k` ends at vertex `k` and
/// starts at the vertex before it; edge `0` starts at the last vertex.
pub open spec fn edge_start(points: Seq<(int, int)>, k: int) -> (int, int) {
    if k == 0 {
        points[points.len() - 1]
    } else {
        points[k - 1]
    }
}

/// Whether the edge from `p1` to `p2` crosses scanline `y`.
///
/// A horizontal edge crosses nothing. Any other edge owns its upper end
/// (smaller `y`) and not its lower end, so a vertex shared by two edges
/// that pass through the scanline is counted once.
pub open spec fn edge_crosses(p1: (int, int), p2: (int, int), y: int) -> bool {
    p1.1 != p2.1 && ((p1.1 <= y && p2.1 > y) || (p1.1 > y && p2.1 <= y))
}

/// The column at which the edge from `p1` to `p2` meets scanline `y`, by
/// linear interpolation with the quotient rounded toward zero.
pub open spec fn crossing_x(p1: (int, int), p2: (int, int), y: int) -> int {
    p1.0 + truncating_div((y - p1.1) * (p2.0 - p1.0), p2.1 - p1.1)
}

/// Whether edge `k` contributes a crossing on scanline `y`: it crosses the
/// scanline, and the crossing is not left of column zero.
pub open spec fn edge_contributes(points: Seq<(int, int)>, k: int, y: int) -> bool {
    &&& edge_crosses(edge_start(points, k), points[k], y)
    &&& crossing_x(edge_start(points, k), points[k], y) >= 0
}

/// The crossings of the first `n` edges with scanline `y`, in edge order.
pub open spec fn crossings_of_first(points: Seq<(int, int)>, y: int, n: nat) -> Seq<int>
    decreases n,
{
    if n == 0 {
        Seq::empty()
    } else {
        let before = crossings_of_first(points, y, (n - 1) as nat);
        if edge_contributes(points, n - 1, y) {
            before.push(crossing_x(edge_start(points, n - 1), points[n - 1], y))
        } else {
            before
        }
    }
}

/// The crossings of all edges of the polygon with scanline `y`.
pub open spec fn crossings(points: Seq<(int, int)>, y: int) -> Seq<int> {
    crossings_of_first(points, y, points.len())
}

/// The order in which crossings are paired.
pub open spec fn ascending() -> spec_fn(int, int) -> bool {
    |a: int, b: int| a <= b
}

/// The crossings of scanline `y` from left to right.
pub open spec fn sorted_crossings(points: Seq<(int, int)>, y: int) -> Seq<int> {
    crossings(points, y).sort_by(ascending())
}

/// Whether the `k`-th pair of `sorted` exists and spans column `x`. The
/// pairs are `(sorted[0], sorted[1])`, `(sorted[2], sorted[3])` and so on;
/// a last entry without a partner forms no pair.
pub open spec fn span_covers(sorted: Seq<int>, k: int, x: int) -> bool {
    &&& 0 <= k
    &&& 2 * k + 1 < sorted.len()
    &&& sorted[2 * k] <= x <= sorted[2 * k + 1]
}

/// Whether column `x` lies in one of the pairs of `sorted`.
pub open spec fn in_spans(sorted: Seq<int>, x: int) -> bool {
    exists|k: int| span_covers(sorted, k, x)
}

/// The pixels of row `y` that the pairs of `sorted` span.
pub open spec fn row_spans(sorted: Seq<int>, y: int) -> Set<(int, int)> {
    Set::new(|p: (int, int)| p.1 == y && in_spans(sorted, p.0))
}

/// The pixels that filling the polygon writes: on every scanline, the
/// columns between the first and second crossing, the third and fourth,
/// and so on, ends included.
pub open spec fn polygon_interior(points: Seq<(int, int)>) -> Set<(int, int)> {
    Set::new(
        |p: (int, int)| points.len() >= 3 && in_spans(sorted_crossings(points, p.1), p.0),
    )
}

/// The crossing of an edge with a scanline is the start column moved
/// toward the end column by the covered share of the distance between
/// them, rounded down, and so lies between the two columns.
pub proof fn lemma_crossing_between_columns(p1: (int, int), p2: (int, int), y: int)
    requires
        edge_crosses(p1, p2, y),
    ensures
        crossing_x(p1, p2, y) == if p2.0 >= p1.0 {
            p1.0 + (magnitude(y - p1.1) * magnitude(p2.0 - p1.0)) / magnitude(p2.1 - p1.1)
        } else {
            p1.0 - (magnitude(y - p1.1) * magnitude(p2.0 - p1.0)) / magnitude(p2.1 - p1.1)
        },
        p1.0 <= crossing_x(p1, p2, y) <= p2.0 || p2.0 <= crossing_x(p1, p2, y) <= p1.0,
{
    let climb = magnitude(y - p1.1);
    let run = magnitude(p2.0 - p1.0);
    let rise = magnitude(p2.1 - p1.1);
    let n = (y - p1.1) * (p2.0 - p1.0);
    lemma_scaled_part_bounded(climb, run, rise);
    assert(magnitude(n) == climb * run) by (nonlinear_arith)
        requires
            n == (y - p1.1) * (p2.0 - p1.0),
            climb == magnitude(y - p1.1),
            run == magnitude(p2.0 - p1.0),
    ;
    assert((n >= 0) == ((y - p1.1 >= 0) == (p2.0 - p1.0 >= 0)) || n == 0) by (nonlinear_arith)
        requires
            n == (y - p1.1) * (p2.0 - p1.0),
    ;
    if n == 0 {
        assert(climb * run == 0);
    }
}

/// The crossing of one edge with scanline `y`, if the edge contributes one.
fn edge_crossing(p1: (usize, usize), p2: (usize, usize), y: usize) -> (x: Option<usize>)
    ensures
        x is Some <==> edge_crosses((p1.0 as int, p1.1 as int), (p2.0 as int, p2.1 as int), y as int)
            && crossing_x((p1.0 as int, p1.1 as int), (p2.0 as int, p2.1 as int), y as int) >= 0,
        x is Some ==> x->0 == crossing_x(
            (p1.0 as int, p1.1 as int),
            (p2.0 as int, p2.1 as int),
            y as int,
        ),
{
    if p1.1 == p2.1 {
        return None;
    }
    if (p1.1 <= y && p2.1 > y) || (p1.1 > y && p2.1 <= y) {
        proof {
            lemma_crossing_between_columns(
                (p1.0 as int, p1.1 as int),
                (p2.0 as int, p2.1 as int),
                y as int,
            );
        }
        let rise = distance(p2.1, p1.1);
        let run = distance(p2.0, p1.0);
        let climb = distance(y, p1.1);
        let offset = scale_down(climb, run, rise);
        if p2.0 >= p1.0 {
            Some(p1.0 + offset)
        } else {
            Some(p1.0 - offset)
        }
    } else {
        None
    }
}

/// The crossings of every edge of the polygon with scanline `y`, in edge
/// order.
pub fn scanline_crossings(points: &[(usize, usize)], y: usize) -> (xs: Vec<usize>)
    ensures
        ints_of(xs@) == crossings(points_of(points@), y as int),
{
    let ghost model = points_of(points@);
    let mut xs: Vec<usize> = Vec::new();
    let n = points.len();
    if n == 0 {
        assert(ints_of(xs@) =~= crossings(model, y as int));
        return xs;
    }
    let mut p1 = points[n - 1];
    let mut k: usize = 0;
    assert(ints_of(xs@) =~= crossings_of_first(model, y as int, 0));
    while k < n
        invariant
            k <= n,
            n == points@.len(),
            n > 0,
            model == points_of(points@),
            (p1.0 as int, p1.1 as int) == edge_start(model, k as int) || k == n,
            ints_of(xs@) == crossings_of_first(model, y as int, k as nat),
        decreases n - k,
    {
        let p2 = points[k];
        let ghost before = xs@;
        match edge_crossing(p1, p2, y) {
            Some(x) => {
                xs.push(x);
                assert(ints_of(xs@) =~= ints_of(before).push(x as int));
            },
            None => {},
        }
        p1 = p2;
        k += 1;
    }
    xs
}

/// `ascending` is a total order.
pub proof fn lemma_ascending_is_total()
    ensures
        vstd::relations::total_ordering(ascending()),
{
}

/// Sorts `v` from smallest to largest.
pub fn sort_ascending(v: &mut Vec<usize>)
    ensures
        ints_of(final(v)@) == ints_of(old(v)@).sort_by(ascending()),
{
    let n = v.len();
    let mut sorted: Vec<usize> = Vec::new();
    let mut k: usize = 0;
    assert(ints_of(v@).take(0) =~= ints_of(sorted@));
    while k < n
        invariant
            k <= n,
            n == v@.len(),
            v@ == old(v)@,
            sorted@.len() == k,
            forall|i: int, j: int| 0 <= i <= j < sorted@.len() ==> sorted@[i] <= sorted@[j],
            ints_of(sorted@).to_multiset() == ints_of(v@).take(k as int).to_multiset(),
        decreases n - k,
    {
        let item = v[k];
        let mut at: usize = 0;
        while at < sorted.len() && sorted[at] <= item
            invariant
                at <= sorted@.len(),
                forall|i: int| 0 <= i < at ==> sorted@[i] <= item,
            decreases sorted@.len() - at,
        {
            at += 1;
        }
        let ghost before = sorted@;
        sorted.insert(at, item);
        proof {
            assert(ints_of(sorted@) =~= ints_of(before).insert(at as int, item as int));
            assert(ints_of(v@).take(k + 1) =~= ints_of(v@).take(k as int).push(item as int));
            vstd::seq_lib::to_multiset_insert(ints_of(before), at as int, item as int);
            vstd::seq_lib::to_multiset_build(ints_of(v@).take(k as int), item as int);
        }
        k += 1;
    }
    proof {
        let input = ints_of(v@);
        let output = ints_of(sorted@);
        assert(input.take(n as int) =~= input);
        lemma_ascending_is_total();
        input.lemma_sort_by_ensures(ascending());
        assert(vstd::relations::sorted_by(output, ascending()));
        vstd::seq_lib::lemma_sorted_unique(output, input.sort_by(ascending()), ascending());
    }
    *v = sorted;
}

/// The pixels of row `y` from column `xa` to column `xb`, ends included.
spec fn span_pixels(xa: int, xb: int, y: int) -> Set<(int, int)> {
    Set::new(|p: (int, int)| p.1 == y && xa <= p.0 <= xb)
}

/// Writes the current color to every pixel of row `y` from column `xa` to
/// column `xb`, left to right.
fn fill_span(framebuffer: &mut Framebuffer, xa: usize, xb: usize, y: usize)
    ensures
        final(framebuffer)@ == old(framebuffer)@.paint(span_pixels(xa as int, xb as int, y as int)),
{
    if xa > xb {
        proof {
            assert(span_pixels(xa as int, xb as int, y as int) =~= Set::empty());
            crate::surface::lemma_paint_empty(framebuffer@);
        }
        return;
    }
    let mut x = xa;
    proof {
        assert(span_pixels(xa as int, x - 1, y as int) =~= Set::empty());
        crate::surface::lemma_paint_empty(framebuffer@);
    }
    loop
        invariant_except_break
            xa <= x <= xb,
            framebuffer@ == old(framebuffer)@.paint(span_pixels(xa as int, x - 1, y as int)),
        ensures
            framebuffer@ == old(framebuffer)@.paint(span_pixels(xa as int, xb as int, y as int)),
        decreases xb - x,
    {
        framebuffer.plot(x, y);
        proof {
            let done = span_pixels(xa as int, x - 1, y as int);
            crate::surface::lemma_paint_union(old(framebuffer)@, done, set![(x as int, y as int)]);
            assert(done.union(set![(x as int, y as int)]) =~= span_pixels(
                xa as int,
                x as int,
                y as int,
            ));
        }
        if x == xb {
            break;
        }
        x += 1;
    }
}

/// The pixels of row `y` that the first `n` pairs of `sorted` span.
spec fn first_spans(sorted: Seq<int>, n: int, y: int) -> Set<(int, int)> {
    Set::new(|p: (int, int)| p.1 == y && exists|k: int| k < n && span_covers(sorted, k, p.0))
}

/// Fills row `y` between each pair of `sorted`; an entry left without a
/// partner is dropped.
fn fill_spans(framebuffer: &mut Framebuffer, sorted: &Vec<usize>, y: usize)
    ensures
        final(framebuffer)@ == old(framebuffer)@.paint(row_spans(ints_of(sorted@), y as int)),
{
    let ghost columns = ints_of(sorted@);
    let n = sorted.len();
    let mut i: usize = 0;
    proof {
        assert(first_spans(columns, 0, y as int) =~= Set::empty());
        crate::surface::lemma_paint_empty(framebuffer@);
    }
    while i < n && i + 1 < n
        invariant
            n == sorted@.len(),
            columns == ints_of(sorted@),
            i % 2 == 0,
            i <= n,
            framebuffer@ == old(framebuffer)@.paint(first_spans(columns, i as int / 2, y as int)),
        decreases n - i,
    {
        let xa = sorted[i];
        let xb = sorted[i + 1];
        fill_span(framebuffer, xa, xb, y);
        proof {
            let k = i as int / 2;
            let done = first_spans(columns, k, y as int);
            let span = span_pixels(xa as int, xb as int, y as int);
            crate::surface::lemma_paint_union(old(framebuffer)@, done, span);
            assert forall|p: (int, int)| #[trigger]
                done.union(span).contains(p) == first_spans(columns, k + 1, y as int).contains(
                    p,
                ) by {
                if span.contains(p) {
                    assert(span_covers(columns, k, p.0));
                }
            }
            assert(done.union(span) =~= first_spans(columns, k + 1, y as int));
        }
        i += 2;
    }
    proof {
        assert(first_spans(columns, i as int / 2, y as int) =~= row_spans(columns, y as int));
    }
}

/// The smallest and the largest `y` among the vertices.
fn vertical_extent(points: &[(usize, usize)]) -> (extent: (usize, usize))
    requires
        points@.len() > 0,
    ensures
        forall|k: int|
            0 <= k < points@.len() ==> extent.0 <= (#[trigger] points@[k]).1 && points@[k].1
                <= extent.1,
        exists|k: int| 0 <= k < points@.len() && points@[k].1 == extent.0,
        exists|k: int| 0 <= k < points@.len() && points@[k].1 == extent.1,
{
    let mut min_y = points[0].1;
    let mut max_y = points[0].1;
    let mut k: usize = 1;
    while k < points.len()
        invariant
            1 <= k <= points@.len(),
            forall|j: int|
                0 <= j < k ==> min_y <= (#[trigger] points@[j]).1 && points@[j].1 <= max_y,
            exists|j: int| 0 <= j < k && points@[j].1 == min_y,
            exists|j: int| 0 <= j < k && points@[j].1 == max_y,
        decreases points@.len() - k,
    {
        let y = points[k].1;
        if y < min_y {
            min_y = y;
        }
        if y > max_y {
            max_y = y;
        }
        k += 1;
    }
    (min_y, max_y)
}

/// If the first `n` edges contribute a crossing on scanline `y`, one of
/// them crosses it.
proof fn lemma_crossing_has_edge(points: Seq<(int, int)>, y: int, n: nat)
    requires
        crossings_of_first(points, y, n).len() > 0,
    ensures
        exists|k: int| 0 <= k < n && edge_contributes(points, k, y),
    decreases n,
{
    if n > 0 {
        if !edge_contributes(points, n - 1, y) {
            lemma_crossing_has_edge(points, y, (n - 1) as nat);
        }
    }
}

/// A filled pixel lies on a scanline that some edge crosses: at or below
/// one vertex and strictly above another. In particular nothing is filled
/// above the topmost vertex, nor on or below the row of the bottommost.
pub proof fn lemma_interior_rows(points: Seq<(int, int)>, x: int, y: int)
    requires
        polygon_interior(points).contains((x, y)),
    ensures
        exists|i: int, j: int|
            0 <= i < points.len() && 0 <= j < points.len() && (#[trigger] points[i]).1 <= y && y
                < (#[trigger] points[j]).1,
{
    let unsorted = crossings(points, y);
    let sorted = sorted_crossings(points, y);
    lemma_ascending_is_total();
    unsorted.lemma_sort_by_ensures(ascending());
    vstd::seq_lib::to_multiset_len(unsorted);
    vstd::seq_lib::to_multiset_len(sorted);
    let k = choose|k: int| span_covers(sorted, k, x);
    assert(span_covers(sorted, k, x));
    lemma_crossing_has_edge(points, y, points.len());
    let e = choose|e: int| 0 <= e < points.len() && edge_contributes(points, e, y);
    let s = if e == 0 {
        points.len() - 1
    } else {
        e - 1
    };
    if points[s].1 <= y {
        assert(points[s].1 <= y < points[e].1);
    } else {
        assert(points[e].1 <= y < points[s].1);
    }
}

/// The filled pixels on scanlines above `y`.
spec fn interior_above(points: Seq<(int, int)>, y: int) -> Set<(int, int)> {
    Set::new(|p: (int, int)| p.1 < y && polygon_interior(points).contains(p))
}

/// Fills the polygon with the current color by the even-odd scanline rule.
///
/// Every scanline from the topmost to the bottommost vertex is intersected
/// with the edges; the crossings are sorted and paired, and each pair is
/// filled from end to end. Pixels outside the surface are dropped by the
/// surface; nothing is clipped here.
pub fn fill_polygon(framebuffer: &mut Framebuffer, points: &[(usize, usize)])
    ensures
        final(framebuffer)@ == old(framebuffer)@.paint(polygon_interior(points_of(points@))),
{
    let ghost model = points_of(points@);
    if points.len() < 3 {
        proof {
            assert(polygon_interior(model) =~= Set::empty());
            crate::surface::lemma_paint_empty(framebuffer@);
        }
        return;
    }
    let (min_y, max_y) = vertical_extent(points);
    let mut y = min_y;
    proof {
        assert forall|p: (int, int)| !(#[trigger] interior_above(model, y as int).contains(p)) by {
            if interior_above(model, y as int).contains(p) {
                lemma_interior_rows(model, p.0, p.1);
            }
        }
        assert(interior_above(model, y as int) =~= Set::empty());
        crate::surface::lemma_paint_empty(framebuffer@);
    }
    loop
        invariant_except_break
            min_y <= y <= max_y,
            framebuffer@ == old(framebuffer)@.paint(interior_above(model, y as int)),
        invariant
            model == points_of(points@),
            points@.len() >= 3,
            forall|k: int|
                0 <= k < points@.len() ==> min_y <= (#[trigger] points@[k]).1 && points@[k].1
                    <= max_y,
        ensures
            framebuffer@ == old(framebuffer)@.paint(polygon_interior(model)),
        decreases max_y - y,
    {
        let mut intersections = scanline_crossings(points, y);
        sort_ascending(&mut intersections);
        fill_spans(framebuffer, &intersections, y);
        proof {
            let above = interior_above(model, y as int);
            let row = row_spans(sorted_crossings(model, y as int), y as int);
            crate::surface::lemma_paint_union(old(framebuffer)@, above, row);
            assert(above.union(row) =~= interior_above(model, y + 1));
        }
        if y == max_y {
            proof {
                assert forall|p: (int, int)| #[trigger]
                    polygon_interior(model).contains(p) implies interior_above(
                    model,
                    y + 1,
                ).contains(p) by {
                    lemma_interior_rows(model, p.0, p.1);
                }
                assert(interior_above(model, y + 1) =~= polygon_interior(model));
            }
            break;
        }
        y += 1;
    }
}

/// The pixels of edge `k` of the polygon: the line from the vertex before
/// vertex `k` to vertex `k`.
pub open spec fn edge_pixels(points: Seq<(int, int)>, k: int) -> Set<(int, int)> {
    line_pixels(edge_start(points, k).0, edge_start(points, k).1, points[k].0, points[k].1)
}

/// The pixels of the edges `lo`, `lo + 1`, ..., `hi - 1` of the polygon.
pub open spec fn edges_pixels(points: Seq<(int, int)>, lo: int, hi: int) -> Set<(int, int)> {
    Set::new(|p: (int, int)| exists|k: int| lo <= k < hi && #[trigger] edge_pixels(points, k).contains(p))
}

/// The pixels that drawing the polygon writes: those of every edge, the
/// closing edge from the last vertex to the first included.
pub open spec fn polygon_outline(points: Seq<(int, int)>) -> Set<(int, int)> {
    if points.len() >= 3 {
        edges_pixels(points, 0, points.len() as int)
    } else {
        Set::empty()
    }
}

/// Draws the outline of the polygon in the current color: a line from each
/// vertex to the next, and one from the last vertex back to the first.
pub fn draw_polygon(framebuffer: &mut Framebuffer, points: &[(usize, usize)])
    ensures
        final(framebuffer)@ == old(framebuffer)@.paint(polygon_outline(points_of(points@))),
{
    let ghost model = points_of(points@);
    if points.len() < 3 {
        proof {
            crate::surface::lemma_paint_empty(framebuffer@);
        }
        return;
    }
    let mut last_point = points[0];
    let mut k: usize = 1;
    proof {
        assert(edges_pixels(model, 1, 1) =~= Set::empty());
        crate::surface::lemma_paint_empty(framebuffer@);
    }
    while k < points.len()
        invariant
            1 <= k <= points@.len(),
            model == points_of(points@),
            last_point == points@[k - 1],
            framebuffer@ == old(framebuffer)@.paint(edges_pixels(model, 1, k as int)),
        decreases points@.len() - k,
    {
        let point = points[k];
        framebuffer.line(last_point.0, last_point.1, point.0, point.1);
        proof {
            let done = edges_pixels(model, 1, k as int);
            crate::surface::lemma_paint_union(old(framebuffer)@, done, edge_pixels(model, k as int));
            assert(done.union(edge_pixels(model, k as int)) =~= edges_pixels(model, 1, k + 1));
        }
        last_point = point;
        k += 1;
    }
    let first_point = points[0];
    framebuffer.line(last_point.0, last_point.1, first_point.0, first_point.1);
    proof {
        let done = edges_pixels(model, 1, k as int);
        crate::surface::lemma_paint_union(old(framebuffer)@, done, edge_pixels(model, 0));
        assert(done.union(edge_pixels(model, 0)) =~= edges_pixels(model, 0, k as int));
    }
}

} // verus!
