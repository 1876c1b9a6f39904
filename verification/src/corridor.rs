//! Straight corridors: what the sparse strategy makes of a corridor that
//! runs along a row without anything opening beside it.

use crate::bitmap::Raster;
use crate::extract::{is_seed, junction_map, lemma_seed_unique, sparse_graph};
use crate::graph::{
    is_edge, lemma_closed_set_holds_reachable, lemma_reachable_self, lemma_reachable_step, Node,
};
use crate::position::Position;
use crate::probe::{
    first_stop, lemma_node_at, lemma_run_length_at, node_at, stops, Direction,
};
use vstd::prelude::*;

verus! {

/// The cells `(x, y)`, `(x + 1, y)`, ... up to `n` of them form a corridor
/// closed at both ends: they are open, the cells before the first and after
/// the last are not, and neither is any cell above or below them.
pub open spec fn is_closed_corridor(r: Raster, x: int, y: int, n: int) -> bool {
    &&& !r.is_open(x - 1, y)
    &&& !r.is_open(x + n, y)
    &&& forall|i: int| 0 <= i < n ==> #[trigger] r.is_open(x + i, y)
    &&& forall|i: int| 0 <= i < n ==> !#[trigger] r.is_open(x + i, y - 1)
    &&& forall|i: int| 0 <= i < n ==> !#[trigger] r.is_open(x + i, y + 1)
}

/// The node at the left end of a closed corridor has one edge, to the right
/// end; the node at the right end has one edge, to the left end. Both edges
/// have the length of the corridor less one.
pub proof fn lemma_corridor_ends(r: Raster, left: Position, n: int)
    requires
        r.well_formed(),
        n >= 1,
        is_closed_corridor(r, left.0 as int, left.1 as int, n),
    ensures
        left.0 + n - 1 <= u16::MAX,
        node_at(r, left) == (Node { left: 0, right: (n - 1) as u16, top: 0, bottom: 0 }),
        node_at(r, ((left.0 + n - 1) as u16, left.1)) == (Node {
            left: (n - 1) as u16,
            right: 0,
            top: 0,
            bottom: 0,
        }),
{
    let x = left.0 as int;
    let y = left.1 as int;
    assert(r.is_open(x + (n - 1), y));
    assert(r.is_open(x + 0, y));
    assert(!r.is_open(x + 0, y - 1) && !r.is_open(x + 0, y + 1));
    assert(!r.is_open(x + (n - 1), y - 1) && !r.is_open(x + (n - 1), y + 1));
    let right: Position = ((x + n - 1) as u16, left.1);
    let rx = right.0 as int;
    // From the left end.
    assert(first_stop(r, x, y, Direction::Left, 1));
    assert(first_stop(r, x, y, Direction::Top, 1));
    assert(first_stop(r, x, y, Direction::Bottom, 1));
    assert(first_stop(r, x, y, Direction::Right, n)) by {
        assert forall|j: int| 1 <= j < n implies !#[trigger] stops(r, x, y, Direction::Right, j) by {
            assert(r.is_open(x + j, y));
            assert(!r.is_open(x + j, y - 1) && !r.is_open(x + j, y + 1));
        }
    }
    lemma_run_length_at(r, x, y, Direction::Left, 1);
    lemma_run_length_at(r, x, y, Direction::Top, 1);
    lemma_run_length_at(r, x, y, Direction::Bottom, 1);
    lemma_run_length_at(r, x, y, Direction::Right, n);
    lemma_node_at(r, left);
    // From the right end.
    assert(first_stop(r, rx, y, Direction::Right, 1));
    assert(first_stop(r, rx, y, Direction::Top, 1));
    assert(first_stop(r, rx, y, Direction::Bottom, 1));
    assert(first_stop(r, rx, y, Direction::Left, n)) by {
        assert forall|j: int| 1 <= j < n implies !#[trigger] stops(r, rx, y, Direction::Left, j) by {
            assert(r.is_open(x + (n - 1 - j), y));
            assert(!r.is_open(x + (n - 1 - j), y - 1) && !r.is_open(x + (n - 1 - j), y + 1));
        }
    }
    lemma_run_length_at(r, rx, y, Direction::Right, 1);
    lemma_run_length_at(r, rx, y, Direction::Top, 1);
    lemma_run_length_at(r, rx, y, Direction::Bottom, 1);
    lemma_run_length_at(r, rx, y, Direction::Left, n);
    lemma_node_at(r, right);
}

/// Of a closed corridor of at least two cells that begins with the first
/// open cell of the bitmap, the sparse strategy makes two nodes, its ends,
/// joined by an edge of the length of the corridor less one in either
/// direction.
pub proof fn lemma_corridor_graph(r: Raster, left: Position, n: int)
    requires
        r.well_formed(),
        n >= 2,
        is_closed_corridor(r, left.0 as int, left.1 as int, n),
        is_seed(r, left),
    ensures
        left.0 + n - 1 <= u16::MAX,
        sparse_graph(r) == Map::<Position, Node>::empty().insert(
            left,
            Node { left: 0, right: (n - 1) as u16, top: 0, bottom: 0 },
        ).insert(
            ((left.0 + n - 1) as u16, left.1),
            Node { left: (n - 1) as u16, right: 0, top: 0, bottom: 0 },
        ),
{
    lemma_corridor_ends(r, left, n);
    lemma_seed_unique(r, left, left);
    let right: Position = ((left.0 + n - 1) as u16, left.1);
    let all = junction_map(r);
    let ends = Set::<Position>::empty().insert(left).insert(right);
    assert(r.is_open(left.0 + 0, left.1 as int));
    assert(r.is_open(left.0 + (n - 1), left.1 as int));
    lemma_reachable_self(all, left);
    assert(is_edge(all, left, right));
    lemma_reachable_step(all, left, left, right);
    assert forall|p: Position, q: Position| ends.contains(p) && #[trigger] is_edge(
        all,
        p,
        q,
    ) implies ends.contains(q) by {}
    let expected = Map::<Position, Node>::empty().insert(
        left,
        Node { left: 0, right: (n - 1) as u16, top: 0, bottom: 0 },
    ).insert(right, Node { left: (n - 1) as u16, right: 0, top: 0, bottom: 0 });
    assert forall|p: Position| sparse_graph(r).contains_key(p) implies ends.contains(p) by {
        lemma_closed_set_holds_reachable(all, left, p, ends);
    }
    assert(sparse_graph(r) =~= expected);
}

} // verus!
