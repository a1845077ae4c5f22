use vstd::prelude::*;

verus! {

use crate::grid::{Grid, VectorU};
use crate::los::{has_line_of_sight, spec_line_of_sight, lemma_los_self, lemma_los_adjacent};
use crate::{adjacent, passable, IMPASSABLE};

/// A path whose cells all lie inside the grid, can all be entered, and
/// follow each other in 4-connected steps.
pub open spec fn clean_path(g: Grid, p: Seq<VectorU>) -> bool {
    &&& forall|i: int|
        0 <= i < p.len() ==> g.spec_in_bounds(#[trigger] p[i]) && passable(g, p[i])
    &&& forall|i: int| 1 <= i < p.len() ==> adjacent(p[i - 1], #[trigger] p[i])
}

/// Every consecutive pair of the waypoint list sees each other under the
/// impassable threshold.
pub open spec fn waypoints_linked(g: Grid, w: Seq<VectorU>) -> bool {
    forall|i: int|
        1 <= i < w.len() ==> spec_line_of_sight(g, w[i - 1], #[trigger] w[i], IMPASSABLE)
}

/// The string-pulling scan over `p` from index `i` on, with `li` the last
/// committed waypoint, `lv` the furthest point seen from it so far, and
/// `acc` the waypoints committed so far.
///
/// While `li` sees the next point, that point becomes the furthest visible
/// one; the moment visibility breaks, the furthest visible point is
/// committed and becomes the new anchor. After the scan the final path point
/// is appended unless it is already the most recent waypoint.
pub open spec fn reduce_scan(
    g: Grid,
    p: Seq<VectorU>,
    i: int,
    li: VectorU,
    lv: VectorU,
    acc: Seq<VectorU>,
) -> Seq<VectorU>
    decreases p.len() - i,
{
    if i >= p.len() {
        if acc.len() >= 1 && acc.last() == p.last() {
            acc
        } else {
            acc.push(lv)
        }
    } else if spec_line_of_sight(g, li, p[i], IMPASSABLE) {
        reduce_scan(g, p, i + 1, li, p[i], acc)
    } else {
        reduce_scan(g, p, i + 1, lv, p[i], acc.push(lv))
    }
}

/// The waypoint list that reduction produces for a path: empty for an empty
/// path, the path itself for a single cell, and otherwise the scan seeded
/// with the path's first point.
pub open spec fn reduce_spec(g: Grid, p: Seq<VectorU>) -> Seq<VectorU> {
    if p.len() == 0 {
        Seq::<VectorU>::empty()
    } else if p.len() == 1 {
        p
    } else {
        reduce_scan(g, p, 1, p[0], p[0], seq![p[0]])
    }
}

/// Simplifies a cell-by-cell path into a short waypoint list by string
/// pulling: a waypoint is committed each time the line of sight from the
/// last committed waypoint breaks, and the path's first and last points are
/// always kept.
///
/// An empty path yields an empty list and a single-cell path yields itself;
/// otherwise the list starts at the path's first point and ends at its last,
/// every waypoint is a point of the path, and on a path of in-bounds
/// passable cells consecutive waypoints always see each other.
#[verifier::loop_isolation(false)]
#[verifier::rlimit(100)]
pub fn reduce(grid: &Grid, path: &[VectorU]) -> (r: Vec<VectorU>)
    requires
        forall|i: int|
            0 <= i < path@.len() ==> (#[trigger] path@[i]).x <= i32::MAX as u32 && path@[i].y
                <= i32::MAX as u32,
    ensures
        r@ == reduce_spec(*grid, path@),
        path@.len() == 0 ==> r@.len() == 0,
        path@.len() == 1 ==> r@ == path@,
        path@.len() >= 1 ==> r@.len() >= 1 && r@[0] == path@[0] && r@.last() == path@.last(),
        forall|j: int| 0 <= j < r@.len() ==> path@.contains(#[trigger] r@[j]),
        clean_path(*grid, path@) ==> waypoints_linked(*grid, r@),
{
    let mut result: Vec<VectorU> = Vec::new();
    if path.len() == 0 {
        proof {
            assert(result@ =~= reduce_spec(*grid, path@));
        }
        return result;
    }
    if path.len() == 1 {
        result.push(path[0]);
        proof {
            assert(result@ =~= path@);
            assert(path@[0] == result@[0]);
        }
        return result;
    }
    let mut last_inserted_position = path[0];
    let mut last_visible_point = last_inserted_position;
    result.push(last_inserted_position);
    proof {
        assert(path@[0] == result@[0]);
        assert(result@ =~= seq![path@[0]]);
        if clean_path(*grid, path@) {
            lemma_los_self(*grid, path@[0], IMPASSABLE);
        }
    }
    let mut i: usize = 1;
    while i < path.len()
        invariant
            1 <= i <= path@.len(),
            result@.len() >= 1,
            result@[0] == path@[0],
            result@.last() == last_inserted_position,
            last_visible_point == path@[i - 1],
            reduce_spec(*grid, path@) == reduce_scan(
                *grid,
                path@,
                i as int,
                last_inserted_position,
                last_visible_point,
                result@,
            ),
            path@.contains(last_inserted_position),
            forall|j: int| 0 <= j < result@.len() ==> path@.contains(#[trigger] result@[j]),
            last_inserted_position.x <= i32::MAX as u32,
            last_inserted_position.y <= i32::MAX as u32,
            clean_path(*grid, path@) ==> waypoints_linked(*grid, result@),
            clean_path(*grid, path@) ==> spec_line_of_sight(
                *grid,
                last_inserted_position,
                last_visible_point,
                IMPASSABLE,
            ),
        decreases path@.len() - i,
    {
        let pos = path[i];
        let ghost (i0, li0, lv0, acc0) = (
            i as int,
            last_inserted_position,
            last_visible_point,
            result@,
        );
        if has_line_of_sight(grid, last_inserted_position, pos, IMPASSABLE) {
            last_visible_point = pos;
            i = i + 1;
            proof {
                assert(reduce_scan(*grid, path@, i0, li0, lv0, acc0) == reduce_scan(
                    *grid,
                    path@,
                    i0 + 1,
                    li0,
                    path@[i0],
                    acc0,
                ));
            }
            continue;
        }
        let ghost result0 = result@;
        last_inserted_position = last_visible_point;
        result.push(last_inserted_position);
        proof {
            assert(path@[i as int - 1] == last_visible_point);
            assert(result@ =~= acc0.push(lv0));
            assert(reduce_scan(*grid, path@, i0, li0, lv0, acc0) == reduce_scan(
                *grid,
                path@,
                i0 + 1,
                lv0,
                path@[i0],
                acc0.push(lv0),
            ));
            if clean_path(*grid, path@) {
                assert forall|j: int| 1 <= j < result@.len() implies spec_line_of_sight(
                    *grid,
                    result@[j - 1],
                    #[trigger] result@[j],
                    IMPASSABLE,
                ) by {
                    if j < result0.len() {
                        assert(result@[j] == result0[j] && result@[j - 1] == result0[j - 1]);
                    } else {
                        assert(result@[j] == last_visible_point);
                        assert(result@[j - 1] == result0.last());
                    }
                }
                lemma_los_adjacent(*grid, path@[i as int - 1], path@[i as int], IMPASSABLE);
            }
        }
        last_visible_point = pos;
        i = i + 1;
    }
    let last_point = path[path.len() - 1];
    let already = result[result.len() - 1];
    proof {
        assert(reduce_spec(*grid, path@) == if result@.len() >= 1 && result@.last()
            == path@.last() {
            result@
        } else {
            result@.push(last_visible_point)
        });
    }
    if !(already == last_point) {
        let ghost result0 = result@;
        result.push(last_visible_point);
        proof {
            assert(path@[path@.len() - 1] == last_visible_point);
            if clean_path(*grid, path@) {
                assert forall|j: int| 1 <= j < result@.len() implies spec_line_of_sight(
                    *grid,
                    result@[j - 1],
                    #[trigger] result@[j],
                    IMPASSABLE,
                ) by {
                    if j < result0.len() {
                        assert(result@[j] == result0[j] && result@[j - 1] == result0[j - 1]);
                    } else {
                        assert(result@[j] == last_visible_point);
                        assert(result@[j - 1] == result0.last());
                    }
                }
            }
        }
    }
    result
}

} // verus!
