use vstd::prelude::*;

verus! {

use crate::grid::{Grid, VectorU};
use crate::{adjacent, passable};

/// One record of a search run: a discovered cell, its accumulated scores,
/// and the arena index of the record it was reached from.
///
/// Records are kept in an arena, appended in discovery order, so a parent
/// always sits at a smaller index than its child; the root record points at
/// itself.
#[derive(Clone, Copy)]
pub(crate) struct Node {
    /// Position of the cell.
    pub position: VectorU,
    /// Cost accumulated from the start node.
    pub g: u64,
    /// Estimated total cost from start to goal through this node.
    pub f: u64,
    /// Arena index of the parent record.
    pub parent: usize,
}

/// The positions along the parent chain of record `i`, from the root record
/// to `i` itself.
pub(crate) open spec fn chain(arena: Seq<Node>, i: int) -> Seq<VectorU>
    decreases i,
{
    if i <= 0 {
        seq![arena[0].position]
    } else if arena[i].parent as int >= i {
        Seq::empty()
    } else {
        chain(arena, arena[i].parent as int) + seq![arena[i].position]
    }
}

/// Well-formedness of the search arena: the root record sits at index 0 and
/// holds the start position, and every later record points at an earlier
/// parent, holds an in-bounds passable cell, and is adjacent to its parent.
pub(crate) open spec fn arena_wf(g: Grid, start: VectorU, arena: Seq<Node>) -> bool {
    &&& arena.len() >= 1
    &&& arena[0].position == start
    &&& arena[0].parent == 0
    &&& forall|i: int| 1 <= i < arena.len() ==> (#[trigger] arena[i]).parent < i
    &&& forall|i: int|
        1 <= i < arena.len() ==> g.spec_in_bounds((#[trigger] arena[i]).position) && passable(
            g,
            arena[i].position,
        )
    &&& forall|i: int|
        1 <= i < arena.len() ==> adjacent(
            arena[(#[trigger] arena[i]).parent as int].position,
            arena[i].position,
        )
}

/// In a well-formed arena, the parent chain of any record is a path: it
/// starts at the start cell, ends at the record's cell, makes only
/// 4-connected steps, and touches only in-bounds passable cells after the
/// first.
pub(crate) proof fn lemma_chain_valid(g: Grid, start: VectorU, arena: Seq<Node>, i: int)
    requires
        arena_wf(g, start, arena),
        0 <= i < arena.len(),
    ensures
        chain(arena, i).len() >= 1,
        chain(arena, i)[0] == start,
        chain(arena, i).last() == arena[i].position,
        forall|j: int|
            1 <= j < chain(arena, i).len() ==> adjacent(
                chain(arena, i)[j - 1],
                #[trigger] chain(arena, i)[j],
            ),
        forall|j: int|
            1 <= j < chain(arena, i).len() ==> g.spec_in_bounds(#[trigger] chain(arena, i)[j])
                && passable(g, chain(arena, i)[j]),
    decreases i,
{
    if i > 0 {
        let p = arena[i].parent as int;
        lemma_chain_valid(g, start, arena, p);
        let cp = chain(arena, p);
        let c = chain(arena, i);
        assert(c == cp + seq![arena[i].position]);
        assert forall|j: int| 1 <= j < c.len() implies adjacent(c[j - 1], #[trigger] c[j]) by {
            if j < cp.len() {
                assert(c[j] == cp[j] && c[j - 1] == cp[j - 1]);
            } else {
                assert(c[j] == arena[i].position);
                assert(c[j - 1] == cp.last());
            }
        }
        assert forall|j: int| 1 <= j < c.len() implies g.spec_in_bounds(#[trigger] c[j])
            && passable(g, c[j]) by {
            if j < cp.len() {
                assert(c[j] == cp[j]);
            } else {
                assert(c[j] == arena[i].position);
            }
        }
    }
}

/// No position repeats along the parent chain of record `i`.
pub(crate) open spec fn chain_distinct(arena: Seq<Node>, i: int) -> bool {
    forall|m1: int, m2: int|
        0 <= m1 < m2 < chain(arena, i).len() ==> chain(arena, i)[m1] != chain(arena, i)[m2]
}

/// Appending a record leaves every existing record's chain unchanged.
pub(crate) proof fn lemma_chain_push(arena: Seq<Node>, n: Node, i: int)
    requires
        0 <= i < arena.len(),
    ensures
        chain(arena.push(n), i) == chain(arena, i),
    decreases i,
{
    if i > 0 && (arena[i].parent as int) < i {
        lemma_chain_push(arena, n, arena[i].parent as int);
    }
}

} // verus!
