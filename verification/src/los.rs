use vstd::prelude::*;

verus! {

use crate::bresenham::{bresenham_line, canon_trace, trace_spec, mag, lemma_trace_endpoints};
use crate::grid::{Grid, VectorU};

/// A raster point is clear when it lies inside the grid and its cost is
/// below the threshold.
pub open spec fn point_clear(g: Grid, p: (int, int), threshold: crate::Cost) -> bool {
    &&& g.cell_in_bounds(p.0, p.1)
    &&& g.spec_cost(p.0, p.1) < threshold
}

/// A step between consecutive raster points is clear unless it is diagonal
/// and one of the two corner cells it slips between blocks it: an in-bounds
/// corner cell must cost less than the threshold.
pub open spec fn corner_clear(g: Grid, prev: (int, int), cur: (int, int), threshold: crate::Cost) -> bool {
    (mag(cur.0 - prev.0) == 1 && mag(cur.1 - prev.1) == 1) ==> {
        &&& (g.cell_in_bounds(prev.0, cur.1) ==> g.spec_cost(prev.0, cur.1) < threshold)
        &&& (g.cell_in_bounds(cur.0, prev.1) ==> g.spec_cost(cur.0, prev.1) < threshold)
    }
}

/// Every point of the sequence is clear, and every diagonal step between
/// consecutive points is clear.
pub open spec fn line_clear(g: Grid, pts: Seq<(int, int)>, threshold: crate::Cost) -> bool {
    &&& forall|i: int| 0 <= i < pts.len() ==> point_clear(g, #[trigger] pts[i], threshold)
    &&& forall|i: int|
        1 <= i < pts.len() ==> corner_clear(g, pts[i - 1], #[trigger] pts[i], threshold)
}

/// Whether the whole raster segment from `start` to `end` is clear under the
/// given cost threshold.
pub open spec fn spec_line_of_sight(
    g: Grid,
    start: VectorU,
    end: VectorU,
    threshold: crate::Cost,
) -> bool {
    line_clear(
        g,
        trace_spec(start.x as int, start.y as int, end.x as int, end.y as int),
        threshold,
    )
}

/// Decides whether `start` sees `end`: the raster segment between them must
/// stay inside the grid and cost less than `threshold` everywhere, and a
/// diagonal step must not slip between two blocking corner cells.
#[verifier::loop_isolation(false)]
#[verifier::rlimit(100)]
pub fn has_line_of_sight(
    grid: &Grid,
    start: VectorU,
    end: VectorU,
    threshold: crate::Cost,
) -> (r: bool)
    requires
        start.x <= i32::MAX as u32,
        start.y <= i32::MAX as u32,
        end.x <= i32::MAX as u32,
        end.y <= i32::MAX as u32,
    ensures
        r == spec_line_of_sight(*grid, start, end, threshold),
{
    let line_points = bresenham_line(start.x as i32, start.y as i32, end.x as i32, end.y as i32);
    let ghost t = trace_spec(start.x as int, start.y as int, end.x as int, end.y as int);
    proof {
        lemma_trace_endpoints(start.x as int, start.y as int, end.x as int, end.y as int);
    }
    let mut i: usize = 0;
    while i < line_points.len()
        invariant
            0 <= i <= line_points@.len(),
            forall|j: int| 0 <= j < i ==> point_clear(*grid, #[trigger] t[j], threshold),
            forall|j: int| 1 <= j < i ==> corner_clear(*grid, t[j - 1], #[trigger] t[j], threshold),
        decreases line_points@.len() - i,
    {
        let p = line_points[i];
        if p.0 < 0 || p.1 < 0 {
            proof {
                assert(!point_clear(*grid, t[i as int], threshold));
            }
            return false;
        }
        let current_vector = VectorU::new(p.0 as u32, p.1 as u32);
        if !grid.in_bounds(current_vector) {
            proof {
                assert(!point_clear(*grid, t[i as int], threshold));
            }
            return false;
        }
        if grid.cost(current_vector) >= threshold {
            proof {
                assert(!point_clear(*grid, t[i as int], threshold));
            }
            return false;
        }
        if i > 0 {
            let q = line_points[i - 1];
            proof {
                assert(point_clear(*grid, t[i as int - 1], threshold));
                assert(mag(t[i as int].0 - t[i as int - 1].0) <= 1);
                assert(mag(t[i as int].1 - t[i as int - 1].1) <= 1);
            }
            let dx: i32 = p.0 - q.0;
            let dy: i32 = p.1 - q.1;
            let adx: i32 = if dx >= 0 {
                dx
            } else {
                -dx
            };
            let ady: i32 = if dy >= 0 {
                dy
            } else {
                -dy
            };
            if adx == 1 && ady == 1 {
                // A diagonal step: check the two cells that share a corner
                // with it.
                let adj1 = VectorU::new(q.0 as u32, p.1 as u32);
                let adj2 = VectorU::new(p.0 as u32, q.1 as u32);
                if grid.in_bounds(adj1) {
                    if grid.cost(adj1) >= threshold {
                        proof {
                            assert(!corner_clear(*grid, t[i as int - 1], t[i as int], threshold));
                        }
                        return false;
                    }
                }
                if grid.in_bounds(adj2) {
                    if grid.cost(adj2) >= threshold {
                        proof {
                            assert(!corner_clear(*grid, t[i as int - 1], t[i as int], threshold));
                        }
                        return false;
                    }
                }
            }
        }
        i = i + 1;
    }
    true
}

/// A cell that is in bounds and costs less than the threshold sees itself.
pub proof fn lemma_los_self(g: Grid, a: VectorU, threshold: crate::Cost)
    requires
        g.spec_in_bounds(a),
        g.spec_cost(a.x as int, a.y as int) < threshold,
    ensures
        spec_line_of_sight(g, a, a, threshold),
{
    let t = trace_spec(a.x as int, a.y as int, a.x as int, a.y as int);
    crate::bresenham::lemma_canon_shape(a.x as int, a.y as int, a.x as int, a.y as int);
    assert(t.len() == 1);
    assert(t[0] == (a.x as int, a.y as int));
}

/// Two 4-connected cells, both in bounds and below the threshold, see each
/// other: their raster segment is just the two cells, and an orthogonal step
/// has no corners to cut.
#[verifier::rlimit(100)]
pub proof fn lemma_los_adjacent(g: Grid, a: VectorU, b: VectorU, threshold: crate::Cost)
    requires
        crate::adjacent(a, b),
        g.spec_in_bounds(a),
        g.spec_in_bounds(b),
        g.spec_cost(a.x as int, a.y as int) < threshold,
        g.spec_cost(b.x as int, b.y as int) < threshold,
    ensures
        spec_line_of_sight(g, a, b, threshold),
{
    let t = trace_spec(a.x as int, a.y as int, b.x as int, b.y as int);
    lemma_trace_endpoints(a.x as int, a.y as int, b.x as int, b.y as int);
    if crate::bresenham::lex_le(a.x as int, a.y as int, b.x as int, b.y as int) {
        crate::bresenham::lemma_canon_shape(a.x as int, a.y as int, b.x as int, b.y as int);
        assert(t.len() == 2);
    } else {
        crate::bresenham::lemma_canon_shape(b.x as int, b.y as int, a.x as int, a.y as int);
        let c = canon_trace(b.x as int, b.y as int, a.x as int, a.y as int);
        assert(c.len() == 2);
        assert(t == c.reverse());
        assert(t.len() == 2);
    }
    assert(t[0] == (a.x as int, a.y as int));
    assert(t[1] == t.last());
    assert(t[1] == (b.x as int, b.y as int));
    assert forall|i: int| 0 <= i < t.len() implies point_clear(g, #[trigger] t[i], threshold) by {
        if i == 0 {
        } else {
            assert(t[i] == (b.x as int, b.y as int));
        }
    }
    assert(!(mag(t[1].0 - t[0].0) == 1 && mag(t[1].1 - t[0].1) == 1));
}

/// Law: raising the threshold never turns a visible pair into a blocked one.
pub proof fn lemma_los_monotonic(
    g: Grid,
    start: VectorU,
    end: VectorU,
    t1: crate::Cost,
    t2: crate::Cost,
)
    requires
        t1 <= t2,
        spec_line_of_sight(g, start, end, t1),
    ensures
        spec_line_of_sight(g, start, end, t2),
{
    let pts = trace_spec(start.x as int, start.y as int, end.x as int, end.y as int);
    assert forall|i: int| 0 <= i < pts.len() implies point_clear(g, #[trigger] pts[i], t2) by {
        assert(point_clear(g, pts[i], t1));
    }
    assert forall|i: int| 1 <= i < pts.len() implies corner_clear(
        g,
        pts[i - 1],
        #[trigger] pts[i],
        t2,
    ) by {
        assert(corner_clear(g, pts[i - 1], pts[i], t1));
    }
}

} // verus!
