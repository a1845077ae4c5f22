//! A grid-based shortest-path engine.
//!
//! The library finds minimal-cost routes between cells of a rectangular,
//! cost-weighted grid ([`AStar`]), rasterizes straight segments between grid
//! coordinates ([`bresenham`]), decides whether two cells see each other
//! without crossing high-cost terrain ([`los`]), and simplifies a cell-by-cell
//! path into a short waypoint list ([`reduce`]).

use vstd::prelude::*;

pub mod bresenham;
pub mod grid;
pub mod los;
mod node;
pub mod prelude;
pub mod reduce;

verus! {

use crate::grid::{Grid, VectorU};
use crate::node::{Node, chain, arena_wf, chain_distinct, lemma_chain_valid, lemma_chain_push};

/// The movement cost to go into a cell.
pub type Cost = u8;

/// Represents the cost of an impassable tile in the grid.
pub const IMPASSABLE: Cost = u8::MAX;

/// Whether two cells are 4-connected neighbors: they differ by exactly one
/// step along exactly one axis.
pub open spec fn adjacent(a: VectorU, b: VectorU) -> bool {
    ||| (a.y == b.y && (a.x + 1 == b.x || b.x + 1 == a.x))
    ||| (a.x == b.x && (a.y + 1 == b.y || b.y + 1 == a.y))
}

/// Whether the cell at `p` can be entered at all.
pub open spec fn passable(g: Grid, p: VectorU) -> bool {
    g.spec_cost(p.x as int, p.y as int) != IMPASSABLE
}

/// The Manhattan distance between two cells.
pub open spec fn manhattan(a: VectorU, b: VectorU) -> int {
    crate::bresenham::mag(a.x - b.x) + crate::bresenham::mag(a.y - b.y)
}

/// What `AStar::search` promises of a returned path: it starts at `start`,
/// ends at `goal`, makes only 4-connected steps, and every cell after the
/// first lies inside the grid and is not impassable.
///
/// (The first cell is the caller's start and is reported as given, whether
/// or not it lies inside the grid.)
pub open spec fn valid_path(g: Grid, start: VectorU, goal: VectorU, p: Seq<VectorU>) -> bool {
    &&& p.len() >= 1
    &&& p[0] == start
    &&& p.last() == goal
    &&& forall|i: int| 1 <= i < p.len() ==> adjacent(p[i - 1], #[trigger] p[i])
    &&& forall|i: int|
        1 <= i < p.len() ==> g.spec_in_bounds(#[trigger] p[i]) && passable(g, p[i])
}

/// The candidate neighbors of `pos`, in the fixed order right, down, left,
/// up; a left or up candidate exists only when the coordinate is nonzero,
/// since coordinates cannot go below zero.
pub open spec fn neighbors_spec(pos: VectorU) -> Seq<VectorU> {
    let base = seq![
        VectorU { x: (pos.x + 1) as u32, y: pos.y },
        VectorU { x: pos.x, y: (pos.y + 1) as u32 },
    ];
    let with_left = if pos.x > 0 {
        base.push(VectorU { x: (pos.x - 1) as u32, y: pos.y })
    } else {
        base
    };
    if pos.y > 0 {
        with_left.push(VectorU { x: pos.x, y: (pos.y - 1) as u32 })
    } else {
        with_left
    }
}

/// The 4-connected neighbor candidates of `pos`.
fn neighbors(pos: VectorU) -> (v: Vec<VectorU>)
    requires
        pos.x < u32::MAX,
        pos.y < u32::MAX,
    ensures
        v@ == neighbors_spec(pos),
        forall|i: int| 0 <= i < v@.len() ==> adjacent(pos, #[trigger] v@[i]),
{
    let mut v: Vec<VectorU> = Vec::new();
    v.push(VectorU { x: pos.x + 1, y: pos.y });
    v.push(VectorU { x: pos.x, y: pos.y + 1 });
    if pos.x > 0 {
        v.push(VectorU { x: pos.x - 1, y: pos.y });
    }
    if pos.y > 0 {
        v.push(VectorU { x: pos.x, y: pos.y - 1 });
    }
    proof {
        assert(v@ =~= neighbors_spec(pos));
        assert forall|i: int| 0 <= i < v@.len() implies adjacent(pos, #[trigger] v@[i]) by {
            if i == 0 {
                assert(v@[i] == (VectorU { x: (pos.x + 1) as u32, y: pos.y }));
            } else if i == 1 {
                assert(v@[i] == (VectorU { x: pos.x, y: (pos.y + 1) as u32 }));
            } else if i == 2 && pos.x > 0 {
                assert(v@[i] == (VectorU { x: (pos.x - 1) as u32, y: pos.y }));
            } else {
                assert(v@[i] == (VectorU { x: pos.x, y: (pos.y - 1) as u32 }));
            }
        }
    }
    v
}

/// Adds two scores, saturating at the top of the range: accumulated costs on
/// any realistic grid stay far below it, but the search must stay safe even
/// on adversarial ones.
fn sat_add(a: u64, b: u64) -> (r: u64)
    ensures
        r == if a + b <= u64::MAX {
            a + b
        } else {
            u64::MAX as int
        },
{
    if a > u64::MAX - b {
        u64::MAX
    } else {
        a + b
    }
}

/// A vector of `n` flags, all clear.
fn clear_flags(n: usize) -> (v: Vec<bool>)
    ensures
        v@.len() == n,
        forall|i: int| 0 <= i < n ==> !v@[i],
{
    let mut v: Vec<bool> = Vec::new();
    while v.len() < n
        invariant
            v@.len() <= n,
            forall|i: int| 0 <= i < v@.len() ==> !v@[i],
        decreases n - v@.len(),
    {
        v.push(false);
    }
    v
}

/// Number of cells among the first `n` that are neither open nor closed.
///
/// The search touches each cell at most once, so this count, together with
/// the length of the open list, bounds the remaining work.
spec fn free_cells(open_m: Seq<bool>, closed_m: Seq<bool>, n: int) -> int
    decreases n,
{
    if n <= 0 {
        0
    } else if !open_m[n - 1] && !closed_m[n - 1] {
        free_cells(open_m, closed_m, n - 1) + 1
    } else {
        free_cells(open_m, closed_m, n - 1)
    }
}

proof fn lemma_free_cells_nonneg(open_m: Seq<bool>, closed_m: Seq<bool>, n: int)
    ensures
        free_cells(open_m, closed_m, n) >= 0,
    decreases n,
{
    if n > 0 {
        lemma_free_cells_nonneg(open_m, closed_m, n - 1);
    }
}

/// The count reads only the first `n` entries.
proof fn lemma_free_cells_agree(
    o1: Seq<bool>,
    c1: Seq<bool>,
    o2: Seq<bool>,
    c2: Seq<bool>,
    n: int,
)
    requires
        forall|j: int| 0 <= j < n ==> o1[j] == o2[j] && c1[j] == c2[j],
    ensures
        free_cells(o1, c1, n) == free_cells(o2, c2, n),
    decreases n,
{
    if n > 0 {
        lemma_free_cells_agree(o1, c1, o2, c2, n - 1);
    }
}

/// Marking a fresh cell open removes it from the free count.
proof fn lemma_free_cells_mark_open(open_m: Seq<bool>, closed_m: Seq<bool>, n: int, i: int)
    requires
        0 <= i < n <= open_m.len(),
        !open_m[i],
        !closed_m[i],
    ensures
        free_cells(open_m.update(i, true), closed_m, n) == free_cells(open_m, closed_m, n) - 1,
    decreases n,
{
    if i == n - 1 {
        lemma_free_cells_agree(open_m.update(i, true), closed_m, open_m, closed_m, n - 1);
    } else {
        lemma_free_cells_mark_open(open_m, closed_m, n - 1, i);
    }
}

/// Clearing an open mark frees the cell again unless it is closed.
proof fn lemma_free_cells_clear_open(open_m: Seq<bool>, closed_m: Seq<bool>, n: int, i: int)
    requires
        0 <= i < n <= open_m.len(),
        open_m[i],
    ensures
        free_cells(open_m.update(i, false), closed_m, n) == free_cells(open_m, closed_m, n) + if !closed_m[i] {
            1int
        } else {
            0int
        },
    decreases n,
{
    if i == n - 1 {
        lemma_free_cells_agree(open_m.update(i, false), closed_m, open_m, closed_m, n - 1);
    } else {
        lemma_free_cells_clear_open(open_m, closed_m, n - 1, i);
    }
}

/// Closing a cell removes it from the free count unless it was open.
proof fn lemma_free_cells_set_closed(open_m: Seq<bool>, closed_m: Seq<bool>, n: int, i: int)
    requires
        0 <= i < n <= closed_m.len(),
        !closed_m[i],
    ensures
        free_cells(open_m, closed_m.update(i, true), n) == free_cells(open_m, closed_m, n) - if !open_m[i] {
            1int
        } else {
            0int
        },
    decreases n,
{
    if i == n - 1 {
        lemma_free_cells_agree(open_m, closed_m.update(i, true), open_m, closed_m, n - 1);
    } else {
        lemma_free_cells_set_closed(open_m, closed_m, n - 1, i);
    }
}


/// The flat row-major index of a cell: its slot in the per-cell flag
/// vectors.
spec fn cell_of(g: Grid, p: VectorU) -> int {
    p.y * g.spec_size().x + p.x
}

/// Number of set flags among the first `n`.
spec fn count_marked(m: Seq<bool>, n: int) -> int
    decreases n,
{
    if n <= 0 {
        0
    } else if m[n - 1] {
        count_marked(m, n - 1) + 1
    } else {
        count_marked(m, n - 1)
    }
}

proof fn lemma_count_marked_nonneg(m: Seq<bool>, n: int)
    ensures
        count_marked(m, n) >= 0,
    decreases n,
{
    if n > 0 {
        lemma_count_marked_nonneg(m, n - 1);
    }
}

proof fn lemma_count_marked_all_clear(m: Seq<bool>, n: int)
    requires
        forall|j: int| 0 <= j < n ==> !m[j],
    ensures
        count_marked(m, n) == 0,
    decreases n,
{
    if n > 0 {
        lemma_count_marked_all_clear(m, n - 1);
    }
}

/// A zero count means no flag among the first `n` is set.
proof fn lemma_count_marked_none(m: Seq<bool>, n: int)
    requires
        count_marked(m, n) == 0,
    ensures
        forall|j: int| 0 <= j < n ==> !m[j],
    decreases n,
{
    if n > 0 {
        lemma_count_marked_nonneg(m, n - 1);
        lemma_count_marked_none(m, n - 1);
    }
}

proof fn lemma_count_marked_agree(m1: Seq<bool>, m2: Seq<bool>, n: int)
    requires
        forall|j: int| 0 <= j < n ==> m1[j] == m2[j],
    ensures
        count_marked(m1, n) == count_marked(m2, n),
    decreases n,
{
    if n > 0 {
        lemma_count_marked_agree(m1, m2, n - 1);
    }
}

/// Flipping one flag moves the count by exactly one.
proof fn lemma_count_marked_set(m: Seq<bool>, n: int, i: int, v: bool)
    requires
        0 <= i < n <= m.len(),
        m[i] != v,
    ensures
        count_marked(m.update(i, v), n) == count_marked(m, n) + if v {
            1int
        } else {
            -1int
        },
    decreases n,
{
    if i == n - 1 {
        lemma_count_marked_agree(m.update(i, v), m, n - 1);
    } else {
        lemma_count_marked_set(m, n - 1, i, v);
    }
}

/// Every 4-connected neighbor of a cell is among its candidate neighbors.
proof fn lemma_adjacent_in_neighbors(pos: VectorU, nb: VectorU)
    requires
        adjacent(pos, nb),
        pos.x < u32::MAX,
        pos.y < u32::MAX,
    ensures
        exists|s: int|
            0 <= s < neighbors_spec(pos).len() && neighbors_spec(pos)[s] == nb,
{
    let ns = neighbors_spec(pos);
    if nb.y == pos.y && nb.x == pos.x + 1 {
        assert(ns[0] == nb);
    } else if nb.x == pos.x && nb.y == pos.y + 1 {
        assert(ns[1] == nb);
    } else if nb.y == pos.y && nb.x + 1 == pos.x {
        assert(pos.x > 0);
        assert(ns[2] == nb);
    } else {
        assert(nb.x == pos.x && nb.y + 1 == pos.y);
        assert(pos.y > 0);
        if pos.x > 0 {
            assert(ns[3] == nb);
        } else {
            assert(ns[2] == nb);
        }
    }
}

/// The search's expansion invariant: every in-bounds passable neighbor of a
/// closed cell has already been discovered — it is closed or open itself.
spec fn frontier_closed(g: Grid, closed_m: Seq<bool>, open_m: Seq<bool>) -> bool {
    forall|p: VectorU, nb: VectorU|
        #![trigger adjacent(p, nb)]
        g.spec_in_bounds(p) && closed_m[cell_of(g, p)] && adjacent(p, nb) && g.spec_in_bounds(nb)
            && passable(g, nb) ==> closed_m[cell_of(g, nb)] || open_m[cell_of(g, nb)]
}

/// The expansion invariant, weakened while one cell is being expanded: its
/// own cell may still be missing from the discovered region.
spec fn frontier_closed_except(g: Grid, closed_m: Seq<bool>, open_m: Seq<bool>, c: int) -> bool {
    forall|p: VectorU, nb: VectorU|
        #![trigger adjacent(p, nb)]
        g.spec_in_bounds(p) && closed_m[cell_of(g, p)] && adjacent(p, nb) && g.spec_in_bounds(nb)
            && passable(g, nb) ==> closed_m[cell_of(g, nb)] || open_m[cell_of(g, nb)]
            || cell_of(g, nb) == c
}

/// Setting more open marks preserves the weakened expansion invariant.
proof fn lemma_frontier_except_more_open(
    g: Grid,
    closed_m: Seq<bool>,
    open_m: Seq<bool>,
    open_m1: Seq<bool>,
    c: int,
)
    requires
        frontier_closed_except(g, closed_m, open_m, c),
        open_m1.len() == open_m.len(),
        forall|j: int| 0 <= j < open_m.len() ==> (open_m[j] ==> open_m1[j]),
        open_m.len() == g.spec_size().x * g.spec_size().y,
    ensures
        frontier_closed_except(g, closed_m, open_m1, c),
{
    let gw = g.spec_size().x as int;
    let gh = g.spec_size().y as int;
    assert forall|p: VectorU, nb: VectorU|
        #![trigger adjacent(p, nb)]
        g.spec_in_bounds(p) && closed_m[cell_of(g, p)] && adjacent(p, nb) && g.spec_in_bounds(nb)
            && passable(g, nb) implies (closed_m[cell_of(g, nb)] || open_m1[cell_of(g, nb)]
            || cell_of(g, nb) == c) by {
        crate::grid::lemma_row_major_in_range(gw, gh, nb.x as int, nb.y as int);
    }
}

/// Clearing the mark of the cell under expansion moves the full expansion
/// invariant to the weakened one.
proof fn lemma_frontier_open_cleared(
    g: Grid,
    closed_m: Seq<bool>,
    open_m: Seq<bool>,
    cur_pos: VectorU,
    ci: int,
)
    requires
        frontier_closed(g, closed_m, open_m),
        g.spec_in_bounds(cur_pos),
        ci == cell_of(g, cur_pos),
        open_m.len() == g.spec_size().x * g.spec_size().y,
    ensures
        frontier_closed_except(g, closed_m, open_m.update(ci, false), ci),
{
    let gw = g.spec_size().x as int;
    let gh = g.spec_size().y as int;
    crate::grid::lemma_row_major_in_range(gw, gh, cur_pos.x as int, cur_pos.y as int);
    let om1 = open_m.update(ci, false);
    assert forall|p: VectorU, nb: VectorU|
        #![trigger adjacent(p, nb)]
        g.spec_in_bounds(p) && closed_m[cell_of(g, p)] && adjacent(p, nb) && g.spec_in_bounds(nb)
            && passable(g, nb) implies (closed_m[cell_of(g, nb)] || om1[cell_of(g, nb)]
            || cell_of(g, nb) == ci) by {
        crate::grid::lemma_row_major_in_range(gw, gh, nb.x as int, nb.y as int);
        if cell_of(g, nb) != ci {
            assert(om1[cell_of(g, nb)] == open_m[cell_of(g, nb)]);
        }
    }
}

/// Closing the expanded cell restores the full expansion invariant once all
/// of its candidate neighbors are discovered.
proof fn lemma_frontier_after_close(
    g: Grid,
    closed_m: Seq<bool>,
    open_m: Seq<bool>,
    cur_pos: VectorU,
    ci: int,
    nbrs: Seq<VectorU>,
)
    requires
        frontier_closed_except(g, closed_m, open_m, ci),
        g.spec_in_bounds(cur_pos),
        cur_pos.x < u32::MAX,
        cur_pos.y < u32::MAX,
        ci == cell_of(g, cur_pos),
        closed_m.len() == g.spec_size().x * g.spec_size().y,
        nbrs == neighbors_spec(cur_pos),
        forall|s: int|
            0 <= s < nbrs.len() ==> ((g.spec_in_bounds(#[trigger] nbrs[s]) && passable(
                g,
                nbrs[s],
            )) ==> closed_m[cell_of(g, nbrs[s])] || open_m[cell_of(g, nbrs[s])]),
    ensures
        frontier_closed(g, closed_m.update(ci, true), open_m),
{
    let gw = g.spec_size().x as int;
    let gh = g.spec_size().y as int;
    crate::grid::lemma_row_major_in_range(gw, gh, cur_pos.x as int, cur_pos.y as int);
    let cm1 = closed_m.update(ci, true);
    assert forall|p: VectorU, nb: VectorU|
        #![trigger adjacent(p, nb)]
        g.spec_in_bounds(p) && cm1[cell_of(g, p)] && adjacent(p, nb) && g.spec_in_bounds(nb)
            && passable(g, nb) implies (cm1[cell_of(g, nb)] || open_m[cell_of(g, nb)]) by {
        crate::grid::lemma_row_major_in_range(gw, gh, p.x as int, p.y as int);
        crate::grid::lemma_row_major_in_range(gw, gh, nb.x as int, nb.y as int);
        if p == cur_pos {
            lemma_adjacent_in_neighbors(cur_pos, nb);
            let s = choose|s: int|
                0 <= s < neighbors_spec(cur_pos).len() && neighbors_spec(cur_pos)[s] == nb;
            assert(nbrs[s] == nb);
        } else {
            crate::grid::lemma_row_major_injective(
                gw,
                gh,
                p.x as int,
                p.y as int,
                cur_pos.x as int,
                cur_pos.y as int,
            );
            assert(closed_m[cell_of(g, p)]);
            assert(closed_m[cell_of(g, nb)] || open_m[cell_of(g, nb)] || cell_of(g, nb) == ci);
        }
    }
}

/// Removing the popped entry keeps the open-list bookkeeping: the remaining
/// entries are in bounds, marked open, pairwise distinct, and within the
/// arena; the popped cell's mark can be cleared because no other entry sits
/// on its cell.
proof fn lemma_open_entries_after_pop(
    g: Grid,
    arena: Seq<Node>,
    open0: Seq<(u64, usize)>,
    open1: Seq<(u64, usize)>,
    open_m: Seq<bool>,
    b0: int,
    cur_pos: VectorU,
    ci: int,
)
    requires
        0 <= b0 < open0.len(),
        open1.len() == open0.len() - 1,
        forall|j: int|
            0 <= j < open1.len() ==> #[trigger] open1[j] == (if j == b0 && b0 < open0.len()
                - 1 {
                open0[open0.len() - 1]
            } else {
                open0[j]
            }),
        forall|j: int| 0 <= j < open0.len() ==> (#[trigger] open0[j]).1 < arena.len(),
        forall|j: int|
            0 <= j < open0.len() ==> g.spec_in_bounds(
                arena[(#[trigger] open0[j]).1 as int].position,
            ),
        forall|j: int|
            0 <= j < open0.len() ==> open_m[cell_of(
                g,
                arena[(#[trigger] open0[j]).1 as int].position,
            )],
        forall|j1: int, j2: int|
            #![trigger open0[j1], open0[j2]]
            0 <= j1 < j2 < open0.len() ==> arena[open0[j1].1 as int].position
                != arena[open0[j2].1 as int].position,
        cur_pos == arena[open0[b0].1 as int].position,
        g.spec_in_bounds(cur_pos),
        ci == cell_of(g, cur_pos),
        open_m.len() == g.spec_size().x * g.spec_size().y,
    ensures
        forall|j: int| 0 <= j < open1.len() ==> (#[trigger] open1[j]).1 < arena.len(),
        forall|j: int|
            0 <= j < open1.len() ==> g.spec_in_bounds(
                arena[(#[trigger] open1[j]).1 as int].position,
            ),
        forall|j: int|
            0 <= j < open1.len() ==> open_m.update(ci, false)[cell_of(
                g,
                arena[(#[trigger] open1[j]).1 as int].position,
            )],
        forall|j1: int, j2: int|
            #![trigger open1[j1], open1[j2]]
            0 <= j1 < j2 < open1.len() ==> arena[open1[j1].1 as int].position
                != arena[open1[j2].1 as int].position,
        open_m[ci],
{
    let gw = g.spec_size().x as int;
    let gh = g.spec_size().y as int;
    crate::grid::lemma_row_major_in_range(gw, gh, cur_pos.x as int, cur_pos.y as int);
    assert(open_m[cell_of(g, arena[open0[b0].1 as int].position)]);
    assert forall|j: int| 0 <= j < open1.len() implies ((#[trigger] open1[j]).1 < arena.len()
        && g.spec_in_bounds(arena[open1[j].1 as int].position) && open_m.update(ci, false)[
    cell_of(g, arena[open1[j].1 as int].position)]) by {
        let j0 = if j == b0 && b0 < open0.len() - 1 {
            open0.len() - 1
        } else {
            j
        };
        assert(open1[j] == open0[j0]);
        assert(j0 != b0);
        let pj = arena[open0[j0].1 as int].position;
        crate::grid::lemma_row_major_in_range(gw, gh, pj.x as int, pj.y as int);
        if j0 < b0 {
            assert(arena[open0[j0].1 as int].position != arena[open0[b0].1 as int].position);
        } else {
            assert(arena[open0[b0].1 as int].position != arena[open0[j0].1 as int].position);
        }
        crate::grid::lemma_row_major_injective(
            gw,
            gh,
            pj.x as int,
            pj.y as int,
            cur_pos.x as int,
            cur_pos.y as int,
        );
    }
    assert forall|j1: int, j2: int|
        #![trigger open1[j1], open1[j2]]
        0 <= j1 < j2 < open1.len() implies arena[open1[j1].1 as int].position
        != arena[open1[j2].1 as int].position by {
        let j01 = if j1 == b0 && b0 < open0.len() - 1 {
            open0.len() - 1
        } else {
            j1
        };
        let j02 = if j2 == b0 && b0 < open0.len() - 1 {
            open0.len() - 1
        } else {
            j2
        };
        assert(open1[j1] == open0[j01]);
        assert(open1[j2] == open0[j02]);
        if j01 < j02 {
            assert(arena[open0[j01].1 as int].position != arena[open0[j02].1 as int].position);
        } else {
            assert(j02 < j01);
            assert(arena[open0[j02].1 as int].position != arena[open0[j01].1 as int].position);
        }
    }
}

/// Pushing a fresh in-bounds cell keeps the open-list bookkeeping.
proof fn lemma_open_entries_after_push(
    g: Grid,
    arena0: Seq<Node>,
    arena1: Seq<Node>,
    open0: Seq<(u64, usize)>,
    open1: Seq<(u64, usize)>,
    open_m: Seq<bool>,
    nb: VectorU,
    ci: int,
    e: (u64, usize),
)
    requires
        arena1 == arena0.push(Node { position: nb, g: e.0, f: e.0, parent: 0 }) || (arena1.len()
            == arena0.len() + 1 && (forall|i: int|
            0 <= i < arena0.len() ==> arena1[i] == arena0[i]) && arena1[arena0.len() as int].position
            == nb),
        open1 == open0.push(e),
        e.1 == arena0.len(),
        forall|j: int| 0 <= j < open0.len() ==> (#[trigger] open0[j]).1 < arena0.len(),
        forall|j: int|
            0 <= j < open0.len() ==> g.spec_in_bounds(
                arena0[(#[trigger] open0[j]).1 as int].position,
            ),
        forall|j: int|
            0 <= j < open0.len() ==> open_m[cell_of(
                g,
                arena0[(#[trigger] open0[j]).1 as int].position,
            )],
        forall|j1: int, j2: int|
            #![trigger open0[j1], open0[j2]]
            0 <= j1 < j2 < open0.len() ==> arena0[open0[j1].1 as int].position
                != arena0[open0[j2].1 as int].position,
        g.spec_in_bounds(nb),
        ci == cell_of(g, nb),
        !open_m[ci],
        open_m.len() == g.spec_size().x * g.spec_size().y,
    ensures
        forall|j: int| 0 <= j < open1.len() ==> (#[trigger] open1[j]).1 < arena1.len(),
        forall|j: int|
            0 <= j < open1.len() ==> g.spec_in_bounds(
                arena1[(#[trigger] open1[j]).1 as int].position,
            ),
        forall|j: int|
            0 <= j < open1.len() ==> open_m.update(ci, true)[cell_of(
                g,
                arena1[(#[trigger] open1[j]).1 as int].position,
            )],
        forall|j1: int, j2: int|
            #![trigger open1[j1], open1[j2]]
            0 <= j1 < j2 < open1.len() ==> arena1[open1[j1].1 as int].position
                != arena1[open1[j2].1 as int].position,
{
    let gw = g.spec_size().x as int;
    let gh = g.spec_size().y as int;
    crate::grid::lemma_row_major_in_range(gw, gh, nb.x as int, nb.y as int);
    assert forall|j: int| 0 <= j < open1.len() implies ((#[trigger] open1[j]).1 < arena1.len()
        && g.spec_in_bounds(arena1[open1[j].1 as int].position) && open_m.update(ci, true)[
    cell_of(g, arena1[open1[j].1 as int].position)]) by {
        if j < open0.len() {
            assert(open1[j] == open0[j]);
            assert(arena1[open0[j].1 as int] == arena0[open0[j].1 as int]);
            let pj = arena0[open0[j].1 as int].position;
            crate::grid::lemma_row_major_in_range(gw, gh, pj.x as int, pj.y as int);
            assert(open_m[cell_of(g, pj)]);
        } else {
            assert(open1[j] == e);
            assert(arena1[e.1 as int].position == nb);
        }
    }
    assert forall|j1: int, j2: int|
        #![trigger open1[j1], open1[j2]]
        0 <= j1 < j2 < open1.len() implies arena1[open1[j1].1 as int].position
        != arena1[open1[j2].1 as int].position by {
        if j2 < open0.len() {
            assert(open1[j1] == open0[j1] && open1[j2] == open0[j2]);
            assert(arena1[open0[j1].1 as int] == arena0[open0[j1].1 as int]);
            assert(arena1[open0[j2].1 as int] == arena0[open0[j2].1 as int]);
        } else {
            assert(open1[j1] == open0[j1]);
            assert(open1[j2] == e);
            assert(arena1[open0[j1].1 as int] == arena0[open0[j1].1 as int]);
            let pj = arena0[open0[j1].1 as int].position;
            assert(open_m[cell_of(g, pj)]);
            assert(arena1[e.1 as int].position == nb);
            assert(pj != nb);
        }
    }
}

/// Every position on the chain of record `i` before the record's own is
/// already closed, or out of bounds (as only the root can be).
spec fn chain_closed(g: Grid, closed_m: Seq<bool>, arena: Seq<Node>, i: int) -> bool {
    forall|m: int|
        0 <= m < chain(arena, i).len() - 1 ==> (!g.spec_in_bounds(#[trigger] chain(arena, i)[m])
            || closed_m[cell_of(g, chain(arena, i)[m])])
}

/// The same, weakened while one cell is being expanded: positions equal to
/// it may not be closed yet.
spec fn chain_closed_except(
    g: Grid,
    closed_m: Seq<bool>,
    arena: Seq<Node>,
    i: int,
    exc: VectorU,
) -> bool {
    forall|m: int|
        0 <= m < chain(arena, i).len() - 1 ==> (!g.spec_in_bounds(#[trigger] chain(arena, i)[m])
            || closed_m[cell_of(g, chain(arena, i)[m])] || chain(arena, i)[m] == exc)
}

/// Law: on a grid whose every in-bounds cell can be entered, any two
/// in-bounds cells are joined by a route of the least possible length, one
/// more than their Manhattan distance — so a search over such a grid must
/// return a path, and one of exactly that length is optimal.
pub proof fn lemma_passable_route_exists(g: Grid, start: VectorU, goal: VectorU)
    requires
        g.spec_in_bounds(start),
        g.spec_in_bounds(goal),
        forall|p: VectorU| g.spec_in_bounds(p) ==> #[trigger] passable(g, p),
    ensures
        exists|q: Seq<VectorU>|
            valid_path(g, start, goal, q) && q.len() == 1 + manhattan(start, goal),
    decreases manhattan(start, goal),
{
    if start == goal {
        let q = seq![start];
        assert(valid_path(g, start, goal, q) && q.len() == 1 + manhattan(start, goal));
    } else {
        let next = if start.x < goal.x {
            VectorU { x: (start.x + 1) as u32, y: start.y }
        } else if start.x > goal.x {
            VectorU { x: (start.x - 1) as u32, y: start.y }
        } else if start.y < goal.y {
            VectorU { x: start.x, y: (start.y + 1) as u32 }
        } else {
            VectorU { x: start.x, y: (start.y - 1) as u32 }
        };
        assert(adjacent(start, next));
        assert(g.spec_in_bounds(next));
        assert(manhattan(next, goal) == manhattan(start, goal) - 1);
        lemma_passable_route_exists(g, next, goal);
        let q2 = choose|q2: Seq<VectorU>|
            valid_path(g, next, goal, q2) && q2.len() == 1 + manhattan(next, goal);
        let q = seq![start] + q2;
        assert(q.last() == q2.last());
        assert(passable(g, next));
        assert forall|i: int| 1 <= i < q.len() implies adjacent(q[i - 1], #[trigger] q[i])
            && g.spec_in_bounds(q[i]) && passable(g, q[i]) by {
            if i == 1 {
                assert(q[1] == q2[0] && q2[0] == next && q[0] == start);
            } else {
                assert(q[i] == q2[i - 1] && q[i - 1] == q2[i - 2]);
                assert(adjacent(q2[i - 2], q2[i - 1]));
                assert(g.spec_in_bounds(q2[i - 1]) && passable(g, q2[i - 1]));
            }
        }
        assert(valid_path(g, start, goal, q) && q.len() == 1 + manhattan(start, goal));
    }
}

/// When the closed region absorbs every in-bounds passable neighbor of its
/// cells, a path that starts inside it stays inside it.
proof fn lemma_sealed_region(g: Grid, closed_m: Seq<bool>, q: Seq<VectorU>, m: int)
    requires
        forall|p: VectorU, nb: VectorU|
            #![trigger adjacent(p, nb)]
            g.spec_in_bounds(p) && closed_m[cell_of(g, p)] && adjacent(p, nb)
                && g.spec_in_bounds(nb) && passable(g, nb) ==> closed_m[cell_of(g, nb)],
        q.len() >= 1,
        g.spec_in_bounds(q[0]),
        closed_m[cell_of(g, q[0])],
        forall|i: int| 1 <= i < q.len() ==> adjacent(q[i - 1], #[trigger] q[i]),
        forall|i: int| 1 <= i < q.len() ==> g.spec_in_bounds(#[trigger] q[i]) && passable(g, q[i]),
        0 <= m < q.len(),
    ensures
        closed_m[cell_of(g, q[m])],
    decreases m,
{
    if m > 0 {
        lemma_sealed_region(g, closed_m, q, m - 1);
        assert(adjacent(q[m - 1], q[m]));
    }
}

/// Rebuilds the cell path of arena record `cur_idx`: its parent chain,
/// collected backwards and then reversed into start-to-goal order.
#[verifier::loop_isolation(false)]
#[verifier::rlimit(100)]
fn reconstruct(
    grid: &Grid,
    start: VectorU,
    goal: VectorU,
    arena: &Vec<Node>,
    cur_idx: usize,
) -> (path: Vec<VectorU>)
    requires
        arena_wf(*grid, start, arena@),
        cur_idx < arena@.len(),
        arena@[cur_idx as int].position == goal,
        chain_distinct(arena@, cur_idx as int),
    ensures
        valid_path(*grid, start, goal, path@),
        path@.len() >= 1 + manhattan(start, goal),
        forall|i: int, j: int| 0 <= i < j < path@.len() ==> path@[i] != path@[j],
{
    let cur_pos = goal;
    let mut rev: Vec<VectorU> = Vec::new();
    let mut i: usize = cur_idx;
    rev.push(cur_pos);
    proof {
        lemma_chain_valid(*grid, start, arena@, cur_idx as int);
        assert(chain(arena@, cur_idx as int) =~= chain(
            arena@,
            cur_idx as int,
        ).drop_last() + rev@.reverse());
    }
    while i != 0
        invariant
            i < arena@.len(),
            rev@.len() >= 1,
            chain(arena@, cur_idx as int) == chain(arena@, i as int).drop_last()
                + rev@.reverse(),
        decreases i,
    {
        proof {
            lemma_chain_valid(*grid, start, arena@, i as int);
            lemma_chain_valid(*grid, start, arena@, arena@[i as int].parent as int);
        }
        let ghost rev0 = rev@;
        let ghost i0 = i as int;
        i = arena[i].parent;
        rev.push(arena[i].position);
        proof {
            let p = i as int;
            assert(chain(arena@, i0) == chain(arena@, p) + seq![
                arena@[i0].position,
            ]);
            assert(chain(arena@, i0).drop_last() =~= chain(arena@, p));
            assert(rev@ =~= rev0.push(arena@[p].position));
            assert(rev@.reverse() =~= seq![arena@[p].position] + rev0.reverse());
            assert(chain(arena@, p) =~= chain(arena@, p).drop_last() + seq![
                arena@[p].position,
            ]);
            assert(chain(arena@, p).drop_last() + rev@.reverse() =~= chain(
                arena@,
                p,
            ) + rev0.reverse());
        }
    }
    let mut path: Vec<VectorU> = Vec::new();
    let mut t: usize = rev.len();
    while t > 0
        invariant
            t <= rev@.len(),
            path@.len() == rev@.len() - t,
            forall|k: int|
                0 <= k < path@.len() ==> #[trigger] path@[k] == rev@[rev@.len() - 1 - k],
        decreases t,
    {
        t = t - 1;
        let q = rev[t];
        path.push(q);
    }
    proof {
        lemma_chain_valid(*grid, start, arena@, cur_idx as int);
        assert(chain(arena@, 0).drop_last() =~= Seq::<VectorU>::empty());
        assert(path@ =~= rev@.reverse());
        assert(path@ =~= chain(arena@, cur_idx as int));
        lemma_path_at_least_manhattan(path@);
        assert forall|i: int, j: int| 0 <= i < j < path@.len() implies path@[i] != path@[j] by {
            assert(chain(arena@, cur_idx as int)[i] != chain(arena@, cur_idx as int)[j]);
        }
    }
    path
}

/// When the open list has run dry, the closed region contains the start and
/// absorbs every in-bounds passable step out of it, yet never contains the
/// goal: no valid path from start to goal can exist.
proof fn lemma_exhausted_no_path(
    g: Grid,
    start: VectorU,
    goal: VectorU,
    closed_m: Seq<bool>,
    open_m: Seq<bool>,
    n: int,
)
    requires
        g.spec_in_bounds(start),
        start != goal,
        n == g.spec_size().x * g.spec_size().y,
        closed_m.len() == n,
        open_m.len() == n,
        count_marked(open_m, n) == 0,
        frontier_closed(g, closed_m, open_m),
        closed_m[cell_of(g, start)] || open_m[cell_of(g, start)],
        g.spec_in_bounds(goal) ==> !closed_m[cell_of(g, goal)],
    ensures
        forall|q: Seq<VectorU>| !valid_path(g, start, goal, q),
{
    lemma_count_marked_none(open_m, n);
    let gw = g.spec_size().x as int;
    let gh = g.spec_size().y as int;
    crate::grid::lemma_row_major_in_range(gw, gh, start.x as int, start.y as int);
    assert(closed_m[cell_of(g, start)]);
    assert forall|p: VectorU, nb: VectorU|
        #![trigger adjacent(p, nb)]
        g.spec_in_bounds(p) && closed_m[cell_of(g, p)] && adjacent(p, nb) && g.spec_in_bounds(nb)
            && passable(g, nb) implies closed_m[cell_of(g, nb)] by {
        crate::grid::lemma_row_major_in_range(gw, gh, nb.x as int, nb.y as int);
    }
    assert forall|q: Seq<VectorU>| !valid_path(g, start, goal, q) by {
        if valid_path(g, start, goal, q) {
            assert(q.len() >= 2);
            lemma_sealed_region(g, closed_m, q, q.len() - 1);
            assert(g.spec_in_bounds(goal));
            assert(false);
        }
    }
}

/// The `AStar` struct implements the A* pathfinding algorithm on a 2D grid.
/// It finds the shortest path from a start point to a goal point,
/// considering the cost of each tile in the grid.
pub struct AStar {}

impl AStar {
    /// The heuristic estimate of the cost from one point to another: the
    /// Manhattan distance.
    fn heuristic(p1: VectorU, p2: VectorU) -> (h: u64)
        ensures
            h == manhattan(p1, p2),
    {
        let dx: u64 = if p1.x >= p2.x {
            (p1.x - p2.x) as u64
        } else {
            (p2.x - p1.x) as u64
        };
        let dy: u64 = if p1.y >= p2.y {
            (p1.y - p2.y) as u64
        } else {
            (p2.y - p1.y) as u64
        };
        dx + dy
    }

    /// Finds a route from `start` to `goal` over `grid`, expanding open
    /// cells in order of lowest estimated total cost.
    ///
    /// Returns the cell-by-cell path from `start` to `goal`, or `None` when
    /// the open list runs out before the goal is reached. Entering a cell
    /// costs one step plus the cell's stored cost; an impassable cell is
    /// never entered. A returned path visits no cell twice, is never shorter
    /// than one plus the Manhattan distance, and whenever any route to an
    /// in-bounds goal exists from an in-bounds start, a path is found. When
    /// several open cells tie on the estimate the earliest-discovered one is
    /// expanded, so among equally cheap routes the one chosen is
    /// implementation-defined.
    ///
    /// An open cell keeps the score it was first discovered with: a cheaper
    /// route to a still-open cell found later is deliberately not
    /// re-applied. (With the Manhattan heuristic and a cost of at least one
    /// step per move, the first route found to a cell on a uniform grid is
    /// already the cheapest, so this shortcut shows only on mixed-cost
    /// grids.)
    #[verifier::loop_isolation(false)]
    #[verifier::rlimit(100)]
    pub fn search(start: VectorU, goal: VectorU, grid: &Grid) -> (r: Option<Vec<VectorU>>)
        requires
            start.x < u32::MAX,
            start.y < u32::MAX,
        ensures
            (match r {
                Option::Some(p) => valid_path(*grid, start, goal, p@),
                Option::None => true,
            }),
            (match r {
                Option::Some(p) => p@.len() >= 1 + manhattan(start, goal),
                Option::None => true,
            }),
            (match r {
                Option::Some(p) => forall|i: int, j: int|
                    0 <= i < j < p@.len() ==> p@[i] != p@[j],
                Option::None => true,
            }),
            start == goal ==> (match r {
                Option::Some(p) => p@ == seq![start],
                Option::None => false,
            }),
            grid.spec_in_bounds(start) && (exists|q: Seq<VectorU>|
                valid_path(*grid, start, goal, q)) ==> r is Some,
            grid.spec_in_bounds(start) && grid.spec_in_bounds(goal) && (forall|p: VectorU|
                grid.spec_in_bounds(p) ==> #[trigger] passable(*grid, p)) ==> r is Some,
    {
        if start == goal {
            let mut p: Vec<VectorU> = Vec::new();
            p.push(start);
            proof {
                assert(p@ =~= seq![start]);
            }
            return Some(p);
        }
        let ncells: usize = grid.cell_count();
        let ghost gw = grid.spec_size().x as int;
        let ghost gh = grid.spec_size().y as int;
        let mut closed: Vec<bool> = clear_flags(ncells);
        let mut in_open: Vec<bool> = clear_flags(ncells);
        let mut arena: Vec<Node> = Vec::new();
        let mut open: Vec<(u64, usize)> = Vec::new();
        let h0 = Self::heuristic(start, goal);
        arena.push(Node { position: start, g: 0, f: h0, parent: 0 });
        open.push((h0, 0));
        proof {
            lemma_count_marked_all_clear(in_open@, ncells as int);
            assert forall|i: int| 0 <= i < arena@.len() implies #[trigger] chain_distinct(
                arena@,
                i,
            ) && chain_closed(*grid, closed@, arena@, i) by {
                assert(chain(arena@, 0) =~= seq![start]);
            }
        }
        if grid.in_bounds(start) {
            let si = grid.index(start);
            let ghost open_m = in_open@;
            in_open[si] = true;
            proof {
                lemma_free_cells_mark_open(open_m, closed@, ncells as int, si as int);
                lemma_count_marked_set(open_m, ncells as int, si as int, true);
            }
        }
        proof {
            assert forall|p: VectorU, nb: VectorU|
                #![trigger adjacent(p, nb)]
                grid.spec_in_bounds(p) && closed@[cell_of(*grid, p)] && adjacent(p, nb)
                    && grid.spec_in_bounds(nb) && passable(*grid, nb) implies (closed@[cell_of(
                *grid,
                nb,
            )] || in_open@[cell_of(*grid, nb)]) by {
                crate::grid::lemma_row_major_in_range(gw, gh, p.x as int, p.y as int);
            }
            assert(frontier_closed(*grid, closed@, in_open@));
            if grid.spec_in_bounds(goal) {
                crate::grid::lemma_row_major_in_range(gw, gh, goal.x as int, goal.y as int);
            }
            if grid.spec_in_bounds(start) {
                crate::grid::lemma_row_major_in_range(gw, gh, start.x as int, start.y as int);
            }
        }
        #[verifier::loop_isolation(true)]
        while open.len() > 0
            invariant
                arena@.len() >= 1,
                arena_wf(*grid, start, arena@),
                closed@.len() == ncells,
                in_open@.len() == ncells,
                ncells == grid.spec_size().x * grid.spec_size().y,
                gw == grid.spec_size().x as int,
                gh == grid.spec_size().y as int,
                start != goal,
                forall|j: int| 0 <= j < open@.len() ==> (#[trigger] open@[j]).1 < arena@.len(),
                forall|i: int|
                    0 <= i < arena@.len() ==> (#[trigger] arena@[i]).position.x < u32::MAX
                        && arena@[i].position.y < u32::MAX,
                grid.spec_in_bounds(start) ==> count_marked(in_open@, ncells as int)
                    == open@.len(),
                grid.spec_in_bounds(start) ==> (forall|j: int|
                    0 <= j < open@.len() ==> grid.spec_in_bounds(
                        arena@[(#[trigger] open@[j]).1 as int].position,
                    )),
                grid.spec_in_bounds(start) ==> (forall|j: int|
                    0 <= j < open@.len() ==> in_open@[cell_of(
                        *grid,
                        arena@[(#[trigger] open@[j]).1 as int].position,
                    )]),
                grid.spec_in_bounds(start) ==> (forall|j1: int, j2: int|
                    #![trigger open@[j1], open@[j2]]
                    0 <= j1 < j2 < open@.len() ==> arena@[open@[j1].1 as int].position
                        != arena@[open@[j2].1 as int].position),
                grid.spec_in_bounds(start) ==> frontier_closed(*grid, closed@, in_open@),
                grid.spec_in_bounds(start) ==> (closed@[cell_of(*grid, start)] || in_open@[
                    cell_of(*grid, start)]),
                grid.spec_in_bounds(goal) ==> !closed@[cell_of(*grid, goal)],
                forall|i: int| 0 <= i < arena@.len() ==> #[trigger] chain_distinct(arena@, i),
                forall|i: int|
                    0 <= i < arena@.len() ==> #[trigger] chain_closed(*grid, closed@, arena@, i),
            decreases open@.len() + 2 * free_cells(in_open@, closed@, ncells as int),
        {
            proof {
                lemma_free_cells_nonneg(in_open@, closed@, ncells as int);
            }
            let ghost measure0 = open@.len() + 2 * free_cells(in_open@, closed@, ncells as int);
            // pop the entry with the lowest estimate; the scan keeps the
            // first of several equal ones
            let mut best: usize = 0;
            let mut j: usize = 1;
            while j < open.len()
                invariant
                    open@.len() > 0,
                    best < open@.len(),
                    1 <= j <= open@.len(),
                decreases open@.len() - j,
            {
                if open[j].0 < open[best].0 {
                    best = j;
                }
                j = j + 1;
            }
            let entry = open[best];
            let cur_idx: usize = entry.1;
            let ghost open0 = open@;
            let ghost b0 = best as int;
            open.swap_remove(best);
            let cur = arena[cur_idx];
            let cur_pos = cur.position;
            proof {
                assert(open0[b0] == entry);
                assert forall|j2: int| 0 <= j2 < open@.len() implies #[trigger] open@[j2] == (
                    if j2 == b0 && b0 < open0.len() - 1 {
                        open0[open0.len() - 1]
                    } else {
                        open0[j2]
                    }
                ) by {}
                if grid.spec_in_bounds(start) {
                    assert(grid.spec_in_bounds(cur_pos));
                }
            }
            let inb = grid.in_bounds(cur_pos);
            if inb {
                let ci = grid.index(cur_pos);
                let ghost open_m = in_open@;
                in_open[ci] = false;
                proof {
                    if grid.spec_in_bounds(start) {
                        lemma_open_entries_after_pop(
                            *grid,
                            arena@,
                            open0,
                            open@,
                            open_m,
                            b0,
                            cur_pos,
                            ci as int,
                        );
                        lemma_frontier_open_cleared(*grid, closed@, open_m, cur_pos, ci as int);
                    }
                    if open_m[ci as int] {
                        lemma_free_cells_clear_open(open_m, closed@, ncells as int, ci as int);
                        lemma_count_marked_set(open_m, ncells as int, ci as int, false);
                    } else {
                        assert(open_m.update(ci as int, false) =~= open_m);
                    }
                }
            }
            if cur_pos == goal {
                proof {
                    assert(chain_distinct(arena@, cur_idx as int));
                }
                return Some(reconstruct(grid, start, goal, &arena, cur_idx));
            }
            let ghost measure1 = open@.len() + 2 * free_cells(in_open@, closed@, ncells as int);
            proof {
                lemma_free_cells_nonneg(in_open@, closed@, ncells as int);
                assert(measure1 <= measure0 + 1);
                assert((inb && closed@[cell_of(*grid, cur_pos)]) ==> measure1 <= measure0 - 1);
                assert(!inb ==> measure1 <= measure0 - 1);
            }
            proof {
                if grid.spec_in_bounds(start) {
                    crate::grid::lemma_row_major_in_range(gw, gh, start.x as int, start.y as int);
                    crate::grid::lemma_row_major_in_range(
                        gw,
                        gh,
                        cur_pos.x as int,
                        cur_pos.y as int,
                    );
                    if cur_pos != start {
                        crate::grid::lemma_row_major_injective(
                            gw,
                            gh,
                            start.x as int,
                            start.y as int,
                            cur_pos.x as int,
                            cur_pos.y as int,
                        );
                    }
                }
                assert forall|i: int| 0 <= i < arena@.len() implies #[trigger] chain_closed_except(
                    *grid,
                    closed@,
                    arena@,
                    i,
                    cur_pos,
                ) by {
                    assert(chain_closed(*grid, closed@, arena@, i));
                }
            }
            let nbrs = neighbors(cur_pos);
            let mut t: usize = 0;
            #[verifier::loop_isolation(true)]
            while t < nbrs.len()
                invariant
                    t <= nbrs@.len(),
                    arena@.len() >= 1,
                    arena_wf(*grid, start, arena@),
                    in_open@.len() == ncells,
                    closed@.len() == ncells,
                    ncells == grid.spec_size().x * grid.spec_size().y,
                    gw == grid.spec_size().x as int,
                    gh == grid.spec_size().y as int,
                    start != goal,
                    cur_idx < arena@.len(),
                    arena@[cur_idx as int] == cur,
                    cur_pos == cur.position,
                    inb == grid.spec_in_bounds(cur_pos),
                    grid.spec_in_bounds(start) ==> inb,
                    nbrs@ == neighbors_spec(cur_pos),
                    forall|s: int| 0 <= s < nbrs@.len() ==> adjacent(cur_pos, #[trigger] nbrs@[s]),
                    free_cells(in_open@, closed@, ncells as int) >= 0,
                    forall|j2: int|
                        0 <= j2 < open@.len() ==> (#[trigger] open@[j2]).1 < arena@.len(),
                    forall|i2: int|
                        0 <= i2 < arena@.len() ==> (#[trigger] arena@[i2]).position.x < u32::MAX
                            && arena@[i2].position.y < u32::MAX,
                    open@.len() + 2 * free_cells(in_open@, closed@, ncells as int) <= measure1,
                    inb ==> !in_open@[cell_of(*grid, cur_pos)],
                    grid.spec_in_bounds(start) ==> count_marked(in_open@, ncells as int)
                        == open@.len(),
                    grid.spec_in_bounds(start) ==> (forall|j2: int|
                        0 <= j2 < open@.len() ==> grid.spec_in_bounds(
                            arena@[(#[trigger] open@[j2]).1 as int].position,
                        )),
                    grid.spec_in_bounds(start) ==> (forall|j2: int|
                        0 <= j2 < open@.len() ==> in_open@[cell_of(
                            *grid,
                            arena@[(#[trigger] open@[j2]).1 as int].position,
                        )]),
                    grid.spec_in_bounds(start) ==> (forall|j1: int, j2: int|
                        #![trigger open@[j1], open@[j2]]
                        0 <= j1 < j2 < open@.len() ==> arena@[open@[j1].1 as int].position
                            != arena@[open@[j2].1 as int].position),
                    grid.spec_in_bounds(start) ==> frontier_closed_except(
                        *grid,
                        closed@,
                        in_open@,
                        cell_of(*grid, cur_pos),
                    ),
                    grid.spec_in_bounds(start) ==> (closed@[cell_of(*grid, start)] || in_open@[
                        cell_of(*grid, start)] || cur_pos == start),
                    grid.spec_in_bounds(goal) ==> !closed@[cell_of(*grid, goal)],
                    forall|i: int| 0 <= i < arena@.len() ==> #[trigger] chain_distinct(arena@, i),
                    forall|i: int|
                        0 <= i < arena@.len() ==> #[trigger] chain_closed_except(
                            *grid,
                            closed@,
                            arena@,
                            i,
                            cur_pos,
                        ),
                    forall|s: int|
                        0 <= s < t ==> ((grid.spec_in_bounds(#[trigger] nbrs@[s]) && passable(
                            *grid,
                            nbrs@[s],
                        )) ==> closed@[cell_of(*grid, nbrs@[s])] || in_open@[cell_of(
                            *grid,
                            nbrs@[s],
                        )]),
                decreases nbrs@.len() - t,
            {
                let neighbor_position = nbrs[t];
                if !grid.in_bounds(neighbor_position) {
                    t = t + 1;
                    continue;
                }
                let ci = grid.index(neighbor_position);
                if closed[ci] {
                    t = t + 1;
                    continue;
                }
                let neighbor_cost = grid.cost(neighbor_position);
                if neighbor_cost == IMPASSABLE {
                    t = t + 1;
                    continue;
                }
                if in_open[ci] {
                    // an open cell keeps its first score; see above
                    t = t + 1;
                    continue;
                }
                let tentative_g = sat_add(cur.g, 1 + neighbor_cost as u64);
                let f_score = sat_add(tentative_g, Self::heuristic(neighbor_position, goal));
                let idx = arena.len();
                let ghost arena0 = arena@;
                let ghost open_b = open@;
                arena.push(
                    Node { position: neighbor_position, g: tentative_g, f: f_score, parent: cur_idx },
                );
                open.push((f_score, idx));
                let ghost open_m = in_open@;
                in_open[ci] = true;
                proof {
                    lemma_free_cells_mark_open(open_m, closed@, ncells as int, ci as int);
                    lemma_free_cells_nonneg(in_open@, closed@, ncells as int);
                    lemma_count_marked_set(open_m, ncells as int, ci as int, true);
                    assert(adjacent(cur_pos, neighbor_position));
                    assert(neighbor_position != cur_pos);
                    if inb {
                        crate::grid::lemma_row_major_in_range(
                            gw,
                            gh,
                            cur_pos.x as int,
                            cur_pos.y as int,
                        );
                        crate::grid::lemma_row_major_injective(
                            gw,
                            gh,
                            neighbor_position.x as int,
                            neighbor_position.y as int,
                            cur_pos.x as int,
                            cur_pos.y as int,
                        );
                        assert(cell_of(*grid, cur_pos) != ci);
                        assert(in_open@[cell_of(*grid, cur_pos)] == open_m[cell_of(
                            *grid,
                            cur_pos,
                        )]);
                    }
                    if grid.spec_in_bounds(start) {
                        crate::grid::lemma_row_major_in_range(
                            gw,
                            gh,
                            start.x as int,
                            start.y as int,
                        );
                    }
                    assert forall|s2: int|
                        0 <= s2 < t + 1 implies ((grid.spec_in_bounds(#[trigger] nbrs@[s2])
                        && passable(*grid, nbrs@[s2])) ==> closed@[cell_of(*grid, nbrs@[s2])]
                        || in_open@[cell_of(*grid, nbrs@[s2])]) by {
                        if s2 < t {
                            if grid.spec_in_bounds(nbrs@[s2]) && passable(*grid, nbrs@[s2]) {
                                crate::grid::lemma_row_major_in_range(
                                    gw,
                                    gh,
                                    nbrs@[s2].x as int,
                                    nbrs@[s2].y as int,
                                );
                                if cell_of(*grid, nbrs@[s2]) != ci {
                                    assert(in_open@[cell_of(*grid, nbrs@[s2])] == open_m[cell_of(
                                        *grid,
                                        nbrs@[s2],
                                    )]);
                                }
                            }
                        } else {
                            assert(nbrs@[s2] == neighbor_position);
                            assert(in_open@[ci as int]);
                        }
                    }
                    assert forall|i2: int| 1 <= i2 < arena@.len() implies adjacent(
                        arena@[(#[trigger] arena@[i2]).parent as int].position,
                        arena@[i2].position,
                    ) by {
                        if i2 < arena0.len() {
                            assert(arena@[i2] == arena0[i2]);
                            assert(arena@[arena@[i2].parent as int] == arena0[arena0[i2].parent as int]);
                        } else {
                            assert(arena@[i2].parent == cur_idx);
                            assert(adjacent(cur_pos, neighbor_position));
                        }
                    }
                    if grid.spec_in_bounds(start) {
                        lemma_open_entries_after_push(
                            *grid,
                            arena0,
                            arena@,
                            open_b,
                            open@,
                            open_m,
                            neighbor_position,
                            ci as int,
                            (f_score, idx),
                        );
                        lemma_frontier_except_more_open(
                            *grid,
                            closed@,
                            open_m,
                            in_open@,
                            cell_of(*grid, cur_pos),
                        );
                    }
                    lemma_chain_valid(*grid, start, arena0, cur_idx as int);
                    assert forall|i2: int| 0 <= i2 < arena@.len() implies #[trigger] chain_distinct(
                        arena@,
                        i2,
                    ) && chain_closed_except(*grid, closed@, arena@, i2, cur_pos) by {
                        if i2 < arena0.len() {
                            lemma_chain_push(arena0, arena@[idx as int], i2);
                            assert(chain(arena@, i2) == chain(arena0, i2));
                            assert(chain_distinct(arena0, i2));
                            assert(chain_closed_except(*grid, closed@, arena0, i2, cur_pos));
                            let c0 = chain(arena0, i2);
                            assert forall|m1: int, m2: int|
                                0 <= m1 < m2 < chain(arena@, i2).len() implies chain(
                                arena@,
                                i2,
                            )[m1] != chain(arena@, i2)[m2] by {
                                assert(chain(arena@, i2)[m1] == c0[m1]);
                                assert(chain(arena@, i2)[m2] == c0[m2]);
                                assert(c0[m1] != c0[m2]);
                            }
                            assert forall|m: int|
                                0 <= m < chain(arena@, i2).len() - 1 implies (
                            !grid.spec_in_bounds(#[trigger] chain(arena@, i2)[m]) || closed@[
                            cell_of(*grid, chain(arena@, i2)[m])] || chain(arena@, i2)[m]
                                == cur_pos) by {
                                assert(chain(arena@, i2)[m] == c0[m]);
                                assert(!grid.spec_in_bounds(c0[m]) || closed@[cell_of(
                                    *grid,
                                    c0[m],
                                )] || c0[m] == cur_pos);
                            }
                        } else {
                            lemma_chain_push(arena0, arena@[idx as int], cur_idx as int);
                            let cp = chain(arena0, cur_idx as int);
                            assert(chain(arena@, cur_idx as int) == cp);
                            assert(chain(arena@, i2) == cp + seq![neighbor_position]);
                            assert(chain_distinct(arena0, cur_idx as int));
                            assert(chain_closed_except(
                                *grid,
                                closed@,
                                arena0,
                                cur_idx as int,
                                cur_pos,
                            ));
                            assert(cp.last() == cur_pos);
                            assert forall|m: int| 0 <= m < cp.len() implies cp[m]
                                != neighbor_position by {
                                if m < cp.len() - 1 {
                                    if grid.spec_in_bounds(cp[m]) {
                                        if closed@[cell_of(*grid, cp[m])] {
                                            crate::grid::lemma_row_major_in_range(
                                                gw,
                                                gh,
                                                cp[m].x as int,
                                                cp[m].y as int,
                                            );
                                            if cp[m] == neighbor_position {
                                                assert(closed@[ci as int]);
                                            }
                                        } else {
                                            assert(cp[m] == cur_pos);
                                        }
                                    }
                                } else {
                                    assert(cp[m] == cur_pos);
                                }
                            }
                            let cn = chain(arena@, i2);
                            assert forall|m1: int, m2: int| 0 <= m1 < m2 < cn.len() implies cn[m1]
                                != cn[m2] by {
                                if m2 < cp.len() {
                                    assert(cn[m1] == cp[m1] && cn[m2] == cp[m2]);
                                } else {
                                    assert(cn[m2] == neighbor_position);
                                    assert(cn[m1] == cp[m1]);
                                }
                            }
                            assert forall|m: int| 0 <= m < cn.len() - 1 implies (
                            !grid.spec_in_bounds(#[trigger] cn[m]) || closed@[cell_of(
                                *grid,
                                cn[m],
                            )] || cn[m] == cur_pos) by {
                                assert(cn[m] == cp[m]);
                                if m < cp.len() - 1 {
                                } else {
                                    assert(cp[m] == cur_pos);
                                }
                            }
                        }
                    }
                    assert forall|i2: int|
                        0 <= i2 < arena@.len() implies #[trigger] chain_closed_except(
                        *grid,
                        closed@,
                        arena@,
                        i2,
                        cur_pos,
                    ) by {
                        assert(chain_distinct(arena@, i2) && chain_closed_except(
                            *grid,
                            closed@,
                            arena@,
                            i2,
                            cur_pos,
                        ));
                    }
                }
                t = t + 1;
            }
            if inb {
                let ci = grid.index(cur_pos);
                let ghost closed_m = closed@;
                closed[ci] = true;
                proof {
                    if !closed_m[ci as int] {
                        lemma_free_cells_set_closed(in_open@, closed_m, ncells as int, ci as int);
                    } else {
                        assert(closed_m.update(ci as int, true) =~= closed_m);
                    }
                    crate::grid::lemma_row_major_in_range(
                        gw,
                        gh,
                        cur_pos.x as int,
                        cur_pos.y as int,
                    );
                    if grid.spec_in_bounds(start) {
                        lemma_frontier_after_close(
                            *grid,
                            closed_m,
                            in_open@,
                            cur_pos,
                            ci as int,
                            nbrs@,
                        );
                        crate::grid::lemma_row_major_in_range(
                            gw,
                            gh,
                            start.x as int,
                            start.y as int,
                        );
                        if start != cur_pos {
                            crate::grid::lemma_row_major_injective(
                                gw,
                                gh,
                                start.x as int,
                                start.y as int,
                                cur_pos.x as int,
                                cur_pos.y as int,
                            );
                        }
                    }
                    if grid.spec_in_bounds(goal) {
                        crate::grid::lemma_row_major_in_range(gw, gh, goal.x as int, goal.y as int);
                        crate::grid::lemma_row_major_injective(
                            gw,
                            gh,
                            goal.x as int,
                            goal.y as int,
                            cur_pos.x as int,
                            cur_pos.y as int,
                        );
                    }
                    assert forall|i2: int| 0 <= i2 < arena@.len() implies #[trigger] chain_closed(
                        *grid,
                        closed@,
                        arena@,
                        i2,
                    ) by {
                        assert(chain_closed_except(*grid, closed_m, arena@, i2, cur_pos));
                        let c = chain(arena@, i2);
                        assert forall|m: int| 0 <= m < c.len() - 1 implies (!grid.spec_in_bounds(
                            #[trigger] c[m],
                        ) || closed@[cell_of(*grid, c[m])]) by {
                            if grid.spec_in_bounds(c[m]) {
                                crate::grid::lemma_row_major_in_range(
                                    gw,
                                    gh,
                                    c[m].x as int,
                                    c[m].y as int,
                                );
                                if c[m] == cur_pos {
                                    assert(closed@[ci as int]);
                                } else {
                                    assert(closed_m[cell_of(*grid, c[m])]);
                                }
                            }
                        }
                    }
                }
            }
            proof {
                lemma_free_cells_nonneg(in_open@, closed@, ncells as int);
                assert(open@.len() + 2 * free_cells(in_open@, closed@, ncells as int)
                    < measure0);
                if !inb {
                    assert forall|i2: int| 0 <= i2 < arena@.len() implies #[trigger] chain_closed(
                        *grid,
                        closed@,
                        arena@,
                        i2,
                    ) by {
                        assert(chain_closed_except(*grid, closed@, arena@, i2, cur_pos));
                        let c = chain(arena@, i2);
                        assert forall|m: int| 0 <= m < c.len() - 1 implies (!grid.spec_in_bounds(
                            #[trigger] c[m],
                        ) || closed@[cell_of(*grid, c[m])]) by {
                            if grid.spec_in_bounds(c[m]) {
                                assert(c[m] != cur_pos);
                            }
                        }
                    }
                }
            }
        }
        proof {
            if grid.spec_in_bounds(start) {
                lemma_exhausted_no_path(*grid, start, goal, closed@, in_open@, ncells as int);
                if grid.spec_in_bounds(goal) && (forall|p: VectorU|
                    grid.spec_in_bounds(p) ==> #[trigger] passable(*grid, p)) {
                    lemma_passable_route_exists(*grid, start, goal);
                    let qw = choose|q: Seq<VectorU>|
                        valid_path(*grid, start, goal, q) && q.len() == 1 + manhattan(
                            start,
                            goal,
                        );
                    assert(!valid_path(*grid, start, goal, qw));
                }
            }
        }
        None
    }
}

/// Law: any 4-connected path is at least as long as the Manhattan distance
/// between its endpoints plus one. A search result of exactly that length —
/// which the search produces on an unobstructed uniform-cost grid — is
/// therefore optimal.
pub proof fn lemma_path_at_least_manhattan(p: Seq<VectorU>)
    requires
        p.len() >= 1,
        forall|i: int| 1 <= i < p.len() ==> adjacent(p[i - 1], #[trigger] p[i]),
    ensures
        p.len() >= 1 + manhattan(p[0], p.last()),
    decreases p.len(),
{
    if p.len() > 1 {
        let q = p.drop_last();
        assert forall|i: int| 1 <= i < q.len() implies adjacent(q[i - 1], #[trigger] q[i]) by {
            assert(q[i] == p[i] && q[i - 1] == p[i - 1]);
        }
        lemma_path_at_least_manhattan(q);
        assert(adjacent(p[p.len() - 2], p.last()));
        assert(q.last() == p[p.len() - 2]);
    }
}

/// Law: when the goal is sealed off — every in-bounds cell adjacent to the
/// goal is impassable — and the start is neither the goal nor adjacent to
/// it, no valid path exists, so the search must report no path.
///
/// (A start cell adjacent to the goal is excluded because the search never
/// inspects the start cell itself: from an impassable start cell next to the
/// goal it still steps straight onto the goal.)
pub proof fn lemma_no_path_when_goal_sealed(
    g: Grid,
    start: VectorU,
    goal: VectorU,
    p: Seq<VectorU>,
)
    requires
        start != goal,
        !adjacent(start, goal),
        forall|q: VectorU| #[trigger] adjacent(q, goal) && g.spec_in_bounds(q) ==> !passable(g, q),
    ensures
        !valid_path(g, start, goal, p),
{
    if valid_path(g, start, goal, p) {
        assert(p.len() >= 2);
        let prev = p[p.len() - 2];
        assert(adjacent(prev, p.last()));
        if p.len() == 2 {
            assert(prev == start);
        } else {
            assert(g.spec_in_bounds(prev) && passable(g, prev));
        }
    }
}

} // verus!
