//! What the scanline fill amounts to: the even-odd rule and the bounds of
//! the filled region.

use vstd::prelude::*;
use crate::geometry::magnitude;
use crate::polygon::{
    ascending, crossing_x, crossings, crossings_of_first, edge_contributes, edge_crosses,
    edge_start, in_spans, lemma_crossing_between_columns, polygon_interior, polygon_outline,
    sorted_crossings, span_covers,
};

verus! {

/// The number of entries of `s` that are smaller than `x`.
pub open spec fn count_left_of(s: Seq<int>, x: int) -> nat
    decreases s.len(),
{
    if s.len() == 0 {
        0
    } else {
        count_left_of(s.drop_last(), x) + if s.last() < x {
            1nat
        } else {
            0nat
        }
    }
}

/// Whether every vertex lies in a column that is not negative.
pub open spec fn columns_not_negative(points: Seq<(int, int)>) -> bool {
    forall|k: int| 0 <= k < points.len() ==> (#[trigger] points[k]).0 >= 0
}

/// Taking one entry out of a sequence lowers the count by one if the entry
/// was smaller than `x`, and leaves it as it is otherwise.
proof fn lemma_count_without(s: Seq<int>, x: int, j: int)
    requires
        0 <= j < s.len(),
    ensures
        count_left_of(s, x) == count_left_of(s.remove(j), x) + if s[j] < x {
            1nat
        } else {
            0nat
        },
    decreases s.len(),
{
    if j == s.len() - 1 {
        assert(s.remove(j) =~= s.drop_last());
    } else {
        lemma_count_without(s.drop_last(), x, j);
        assert(s.drop_last().remove(j) =~= s.remove(j).drop_last());
        assert(s.remove(j).last() == s.last());
    }
}

/// Two sequences with the same entries, in whatever order, have the same
/// count.
proof fn lemma_count_of_rearranged(a: Seq<int>, b: Seq<int>, x: int)
    requires
        a.to_multiset() == b.to_multiset(),
    ensures
        count_left_of(a, x) == count_left_of(b, x),
    decreases a.len(),
{
    vstd::seq_lib::to_multiset_len(a);
    vstd::seq_lib::to_multiset_len(b);
    if a.len() > 0 {
        let v = a.last();
        vstd::seq_lib::to_multiset_contains(a, v);
        vstd::seq_lib::to_multiset_contains(b, v);
        assert(a.contains(v));
        let j = choose|j: int| 0 <= j < b.len() && b[j] == v;
        assert(a.drop_last() =~= a.remove(a.len() - 1));
        vstd::seq_lib::to_multiset_remove(a, a.len() - 1);
        vstd::seq_lib::to_multiset_remove(b, j);
        lemma_count_of_rearranged(a.drop_last(), b.remove(j), x);
        lemma_count_without(b, x, j);
    }
}

/// In an ascending sequence the entries smaller than `x` are the first
/// `count_left_of(s, x)` ones.
proof fn lemma_count_in_ascending(s: Seq<int>, x: int)
    requires
        vstd::relations::sorted_by(s, ascending()),
    ensures
        count_left_of(s, x) <= s.len(),
        forall|i: int| 0 <= i < s.len() ==> (#[trigger] s[i] < x) == (i < count_left_of(s, x)),
    decreases s.len(),
{
    if s.len() > 0 {
        let front = s.drop_last();
        assert forall|i: int, j: int| 0 <= i < j < front.len() implies ascending()(
            front[i],
            front[j],
        ) by {
            assert(ascending()(s[i], s[j]));
        }
        lemma_count_in_ascending(front, x);
        assert forall|i: int| 0 <= i < s.len() implies (#[trigger] s[i] < x) == (i
            < count_left_of(s, x)) by {
            if i < s.len() - 1 {
                assert(front[i] == s[i]);
                assert(ascending()(s[i], s[s.len() - 1]));
            }
            if count_left_of(front, x) < front.len() {
                let c = count_left_of(front, x) as int;
                assert(!(front[c] < x));
                assert(ascending()(s[c], s[s.len() - 1]));
            }
        }
    }
}

/// A crossing lies less than one column from the point where the edge
/// itself meets the scanline, and on that point where the point has a
/// whole column: measured in units of the edge's height, the distance is
/// the remainder that the division dropped.
pub proof fn lemma_crossing_near_edge(p1: (int, int), p2: (int, int), y: int)
    requires
        edge_crosses(p1, p2, y),
    ensures
        magnitude((crossing_x(p1, p2, y) - p1.0) * (p2.1 - p1.1) - (y - p1.1) * (p2.0 - p1.0))
            == (magnitude(y - p1.1) * magnitude(p2.0 - p1.0)) % magnitude(p2.1 - p1.1),
        magnitude((crossing_x(p1, p2, y) - p1.0) * (p2.1 - p1.1) - (y - p1.1) * (p2.0 - p1.0))
            < magnitude(p2.1 - p1.1),
{
    let climb = magnitude(y - p1.1);
    let run = magnitude(p2.0 - p1.0);
    let rise = magnitude(p2.1 - p1.1);
    let q = (climb * run) / rise;
    let r = (climb * run) % rise;
    let c = crossing_x(p1, p2, y);
    lemma_crossing_between_columns(p1, p2, y);
    vstd::arithmetic::div_mod::lemma_fundamental_div_mod(climb * run, rise);
    vstd::arithmetic::div_mod::lemma_mod_bound(climb * run, rise);
    let dy = p2.1 - p1.1;
    let dx = p2.0 - p1.0;
    let off = c - p1.0;
    let gap = off * dy - (y - p1.1) * dx;
    if dy > 0 {
        if dx >= 0 {
            assert(gap == -r) by (nonlinear_arith)
                requires
                    gap == off * dy - (y - p1.1) * dx,
                    off == q,
                    dy == rise,
                    y - p1.1 == climb,
                    dx == run,
                    climb * run == rise * q + r,
            ;
        } else {
            assert(gap == r) by (nonlinear_arith)
                requires
                    gap == off * dy - (y - p1.1) * dx,
                    off == -q,
                    dy == rise,
                    y - p1.1 == climb,
                    dx == -run,
                    climb * run == rise * q + r,
            ;
        }
    } else {
        if dx >= 0 {
            assert(gap == r) by (nonlinear_arith)
                requires
                    gap == off * dy - (y - p1.1) * dx,
                    off == q,
                    dy == -rise,
                    y - p1.1 == -climb,
                    dx == run,
                    climb * run == rise * q + r,
            ;
        } else {
            assert(gap == -r) by (nonlinear_arith)
                requires
                    gap == off * dy - (y - p1.1) * dx,
                    off == -q,
                    dy == -rise,
                    y - p1.1 == -climb,
                    dx == -run,
                    climb * run == rise * q + r,
            ;
        }
    }
}

/// A list of fewer than three vertices forms no polygon: it has neither
/// an interior nor an outline.
pub proof fn lemma_too_few_vertices(points: Seq<(int, int)>)
    requires
        points.len() < 3,
    ensures
        polygon_interior(points) == Set::<(int, int)>::empty(),
        polygon_outline(points) == Set::<(int, int)>::empty(),
{
    assert(polygon_interior(points) =~= Set::<(int, int)>::empty());
}

/// Every crossing on a scanline belongs to an edge that crosses it.
proof fn lemma_crossing_belongs_to_edge(points: Seq<(int, int)>, y: int, n: nat, c: int)
    requires
        crossings_of_first(points, y, n).contains(c),
    ensures
        exists|k: int|
            0 <= k < n && #[trigger] edge_contributes(points, k, y) && c == crossing_x(
                edge_start(points, k),
                points[k],
                y,
            ),
    decreases n,
{
    if n > 0 {
        let before = crossings_of_first(points, y, (n - 1) as nat);
        let i = choose|i: int|
            0 <= i < crossings_of_first(points, y, n).len() && crossings_of_first(points, y, n)[i]
                == c;
        if edge_contributes(points, n - 1, y) && i == before.len() {
        } else {
            assert(before[i] == c);
            lemma_crossing_belongs_to_edge(points, y, (n - 1) as nat, c);
        }
    }
}

/// A filled pixel lies between two crossings of its scanline, and these
/// between the columns of two vertices: nothing is filled left of the
/// leftmost vertex or right of the rightmost.
pub proof fn lemma_interior_columns(points: Seq<(int, int)>, x: int, y: int)
    requires
        polygon_interior(points).contains((x, y)),
    ensures
        exists|i: int, j: int|
            0 <= i < points.len() && 0 <= j < points.len() && (#[trigger] points[i]).0 <= x && x
                <= (#[trigger] points[j]).0,
{
    let unsorted = crossings(points, y);
    let sorted = sorted_crossings(points, y);
    crate::polygon::lemma_ascending_is_total();
    unsorted.lemma_sort_by_ensures(ascending());
    let k = choose|k: int| span_covers(sorted, k, x);
    let lo = sorted[2 * k];
    let hi = sorted[2 * k + 1];
    assert(sorted.contains(lo));
    assert(sorted.contains(hi));
    assert(unsorted.contains(lo));
    assert(unsorted.contains(hi));
    lemma_crossing_belongs_to_edge(points, y, points.len(), lo);
    lemma_crossing_belongs_to_edge(points, y, points.len(), hi);
    let a = choose|a: int|
        0 <= a < points.len() && #[trigger] edge_contributes(points, a, y) && lo == crossing_x(
            edge_start(points, a),
            points[a],
            y,
        );
    let b = choose|b: int|
        0 <= b < points.len() && #[trigger] edge_contributes(points, b, y) && hi == crossing_x(
            edge_start(points, b),
            points[b],
            y,
        );
    lemma_crossing_between_columns(edge_start(points, a), points[a], y);
    lemma_crossing_between_columns(edge_start(points, b), points[b], y);
    let a0 = if a == 0 {
        points.len() - 1
    } else {
        a - 1
    };
    let b0 = if b == 0 {
        points.len() - 1
    } else {
        b - 1
    };
    let i = if points[a].0 <= lo {
        a
    } else {
        a0
    };
    let j = if hi <= points[b].0 {
        b
    } else {
        b0
    };
    assert(points[i].0 <= x && x <= points[j].0);
}

/// Along the edges `0` to `n - 1`, which lead from the last vertex to
/// vertex `n - 1`, the number of crossings is odd exactly if the two ends
/// of that path lie on different sides of the scanline.
proof fn lemma_crossings_parity(points: Seq<(int, int)>, y: int, n: nat)
    requires
        1 <= n <= points.len(),
        columns_not_negative(points),
    ensures
        crossings_of_first(points, y, n).len() % 2 == if (points[points.len() - 1].1 > y) != (
        points[n - 1].1 > y) {
            1nat
        } else {
            0nat
        },
    decreases n,
{
    let p1 = edge_start(points, n - 1);
    let p2 = points[n - 1];
    if edge_crosses(p1, p2, y) {
        lemma_crossing_between_columns(p1, p2, y);
    }
    if n > 1 {
        lemma_crossings_parity(points, y, (n - 1) as nat);
    } else {
        assert(crossings_of_first(points, y, 0).len() == 0);
    }
}

/// A closed polygon crosses every scanline an even number of times: each
/// crossing that enters has one that leaves, so no crossing is ever left
/// without a partner.
pub proof fn lemma_crossings_even(points: Seq<(int, int)>, y: int)
    requires
        columns_not_negative(points),
    ensures
        crossings(points, y).len() % 2 == 0,
        sorted_crossings(points, y).len() % 2 == 0,
{
    if points.len() > 0 {
        lemma_crossings_parity(points, y, points.len());
    }
    crate::polygon::lemma_ascending_is_total();
    crossings(points, y).lemma_sort_by_ensures(ascending());
    vstd::seq_lib::to_multiset_len(crossings(points, y));
    vstd::seq_lib::to_multiset_len(sorted_crossings(points, y));
}

/// The even-odd rule. A pixel is filled exactly if an odd number of
/// crossings of its scanline lie to its left, or a crossing falls on the
/// pixel itself: the spans take in both of their ends.
pub proof fn lemma_even_odd_rule(points: Seq<(int, int)>, x: int, y: int)
    requires
        points.len() >= 3,
        columns_not_negative(points),
    ensures
        polygon_interior(points).contains((x, y)) <==> (count_left_of(crossings(points, y), x) % 2
            == 1 || crossings(points, y).contains(x)),
{
    let unsorted = crossings(points, y);
    let sorted = sorted_crossings(points, y);
    crate::polygon::lemma_ascending_is_total();
    unsorted.lemma_sort_by_ensures(ascending());
    lemma_crossings_even(points, y);
    lemma_count_of_rearranged(unsorted, sorted, x);
    lemma_count_in_ascending(sorted, x);
    vstd::seq_lib::to_multiset_contains(unsorted, x);
    vstd::seq_lib::to_multiset_contains(sorted, x);
    let left = count_left_of(sorted, x) as int;
    let n = sorted.len() as int;
    if in_spans(sorted, x) {
        let k = choose|k: int| span_covers(sorted, k, x);
        if sorted[2 * k] == x || sorted[2 * k + 1] == x {
            assert(sorted.contains(x));
        } else {
            assert(sorted[2 * k] < x);
            assert(!(sorted[2 * k + 1] < x));
            assert(left == 2 * k + 1);
        }
    }
    if sorted.contains(x) {
        let j = choose|j: int| 0 <= j < sorted.len() && sorted[j] == x;
        if j % 2 == 0 {
            assert(ascending()(sorted[j], sorted[j + 1]));
            assert(span_covers(sorted, j / 2, x));
        } else {
            assert(ascending()(sorted[j - 1], sorted[j]));
            assert(span_covers(sorted, (j - 1) / 2, x));
        }
    } else if left % 2 == 1 {
        assert(sorted[left - 1] < x);
        assert(!(sorted[left] < x));
        assert(span_covers(sorted, (left - 1) / 2, x));
    }
}

} // verus!
