//! Maze extraction: from a bitmap to the node graph.
//!
//! The sparse strategy keeps the junctions that can be reached from the
//! first open cell and joins them by run-lengths. The dense strategy makes a
//! node of every open cell and joins neighbouring cells.

use crate::bitmap::{Bitmap, Raster};
use crate::graph::{
    is_edge, lemma_closed_set_holds_reachable, lemma_reachable_self, lemma_reachable_step,
    no_dangling_edges, reachable, scan_le, Node, NodeGraph,
};
use crate::position::{position_count, Position};
use crate::probe::{is_open, lemma_node_at, node_at, probe_node};
use crate::table::PositionMap;
use vstd::prelude::*;

verus! {

/// Why no graph could be made of a bitmap.
#[derive(Clone, Copy, Debug, PartialEq, Eq, Structural)]
pub enum ExtractError {
    /// The bitmap has no open cell.
    EmptyMaze,
}

/// Some cell of the bitmap is open.
pub open spec fn has_open_cell(r: Raster) -> bool {
    exists|p: Position| r.is_open(p.0 as int, p.1 as int)
}

/// `p` is the first open cell in scanning order.
pub open spec fn is_seed(r: Raster, p: Position) -> bool {
    &&& r.is_open(p.0 as int, p.1 as int)
    &&& forall|q: Position| #[trigger] r.is_open(q.0 as int, q.1 as int) ==> scan_le(p, q)
}

/// The first open cell in scanning order.
pub open spec fn seed_of(r: Raster) -> Position {
    choose|p: Position| is_seed(r, p)
}

/// Every open cell with the node that stands at it.
pub open spec fn junction_map(r: Raster) -> Map<Position, Node> {
    Map::new(|p: Position| r.is_open(p.0 as int, p.1 as int), |p: Position| node_at(r, p))
}

/// The graph of the sparse strategy: the cells that the first open cell
/// reaches along run-lengths, each with the node that stands at it.
pub open spec fn sparse_graph(r: Raster) -> Map<Position, Node> {
    Map::new(
        |p: Position| reachable(junction_map(r), seed_of(r), p),
        |p: Position| node_at(r, p),
    )
}

/// There is one first open cell at most.
pub proof fn lemma_seed_unique(r: Raster, a: Position, b: Position)
    requires
        is_seed(r, a),
        is_seed(r, b),
    ensures
        a == b,
        seed_of(r) == a,
{
    let chosen = seed_of(r);
    assert(is_seed(r, chosen));
    assert(scan_le(a, chosen) && scan_le(chosen, a));
    assert(scan_le(a, b) && scan_le(b, a));
}

/// Every cell that the first open cell reaches is open.
pub proof fn lemma_reached_is_open(r: Raster, seed: Position, p: Position)
    requires
        r.well_formed(),
        r.is_open(seed.0 as int, seed.1 as int),
        reachable(junction_map(r), seed, p),
    ensures
        r.is_open(p.0 as int, p.1 as int),
{
    let graph = junction_map(r);
    let open = Set::new(|q: Position| r.is_open(q.0 as int, q.1 as int));
    assert forall|a: Position, b: Position| open.contains(a) && #[trigger] is_edge(
        graph,
        a,
        b,
    ) implies open.contains(b) by {
        lemma_node_at(r, a);
    }
    lemma_closed_set_holds_reachable(graph, seed, p, open);
}

/// In the graph of the sparse strategy no edge dangles.
pub proof fn lemma_sparse_graph_no_dangling(r: Raster)
    requires
        r.well_formed(),
        has_open_cell(r),
    ensures
        no_dangling_edges(sparse_graph(r)),
        sparse_graph(r).contains_key(seed_of(r)),
        is_seed(r, seed_of(r)),
{
    lemma_seed_exists(r);
    let seed = seed_of(r);
    let all = junction_map(r);
    let graph = sparse_graph(r);
    lemma_reachable_self(all, seed);
    assert forall|p: Position| #[trigger] graph.contains_key(p) implies graph[p].fits(p) by {
        lemma_reached_is_open(r, seed, p);
        lemma_node_at(r, p);
    }
    assert forall|p: Position, q: Position| #[trigger] is_edge(graph, p, q) implies graph.contains_key(
        q,
    ) by {
        lemma_reached_is_open(r, seed, p);
        assert(is_edge(all, p, q));
        lemma_reachable_step(all, seed, p, q);
    }
}

/// A bitmap with an open cell has a first one.
pub proof fn lemma_seed_exists(r: Raster)
    requires
        has_open_cell(r),
    ensures
        is_seed(r, seed_of(r)),
{
    let some = choose|p: Position| r.is_open(p.0 as int, p.1 as int);
    let first = lemma_first_open_from(r, some, 0, 0);
    assert(is_seed(r, first));
}

/// Scanning from `(x, y)` on, with no open cell before it and one somewhere,
/// finds the first open cell.
proof fn lemma_first_open_from(r: Raster, some: Position, x: int, y: int) -> (first: Position)
    requires
        r.is_open(some.0 as int, some.1 as int),
        0 <= x <= 0xFFFF,
        0 <= y <= 0xFFFF,
        forall|q: Position|
            #[trigger] r.is_open(q.0 as int, q.1 as int) ==> q.1 > y || (q.1 == y && q.0 >= x),
    ensures
        is_seed(r, first),
    decreases 0xFFFF - y, 0xFFFF - x,
{
    if r.is_open(x, y) {
        (x as u16, y as u16)
    } else if x < 0xFFFF {
        lemma_first_open_from(r, some, x + 1, y)
    } else {
        assert(y < 0xFFFF) by {
            assert(some.1 > y || (some.1 == y && some.0 >= x));
        }
        lemma_first_open_from(r, some, 0, y + 1)
    }
}

/// Scans the bitmap row by row for the first open cell.
pub fn find_seed(bitmap: &Bitmap) -> (seed: Option<Position>)
    ensures
        bitmap@.well_formed(),
        match seed {
            Some(p) => is_seed(bitmap@, p),
            None => !has_open_cell(bitmap@),
        },
{
    let ghost r = bitmap@;
    let width: usize = bitmap.width();
    let height: usize = bitmap.height();
    let mut y: usize = 0;
    while y < height
        invariant
            r == bitmap@,
            r.well_formed(),
            width == r.width,
            height == r.height,
            y <= height,
            forall|q: Position| #[trigger] r.is_open(q.0 as int, q.1 as int) ==> q.1 >= y,
        decreases height - y,
    {
        let mut x: usize = 0;
        while x < width
            invariant
                r == bitmap@,
                r.well_formed(),
                width == r.width,
                height == r.height,
                y < height,
                x <= width,
                forall|q: Position| #[trigger] r.is_open(q.0 as int, q.1 as int) ==> q.1 >= y,
                forall|q: Position|
                    #[trigger] r.is_open(q.0 as int, q.1 as int) && q.1 == y ==> q.0 >= x,
            decreases width - x,
        {
            if is_open(bitmap, x as i64, y as i64) {
                return Some((x as u16, y as u16));
            }
            x = x + 1;
        }
        y = y + 1;
    }
    None
}

/// Extracts the sparse graph of a bitmap.
///
/// The first open cell in scanning order is the seed. From it the junctions
/// are visited depth-first: each visited cell is probed in the four
/// directions, stored with its run-lengths, and the cells that its edges end
/// on are visited in turn. Fails with `EmptyMaze` when the bitmap has no
/// open cell.
pub fn extract_sparse(bitmap: &Bitmap) -> (result: Result<NodeGraph, ExtractError>)
    ensures
        bitmap@.well_formed(),
        match result {
            Ok(graph) => has_open_cell(bitmap@) && graph@ == sparse_graph(bitmap@),
            Err(_) => !has_open_cell(bitmap@),
        },
{
    let ghost r = bitmap@;
    let ghost all = junction_map(r);
    let seed: Position = match find_seed(bitmap) {
        Some(p) => p,
        None => {
            return Err(ExtractError::EmptyMaze);
        },
    };
    proof {
        lemma_seed_unique(r, seed, seed);
        lemma_reachable_self(all, seed);
    }
    let mut nodes: PositionMap<Node> = PositionMap::new();
    let mut stack: Vec<Position> = Vec::new();
    stack.push(seed);
    assert(stack@[0] == seed);
    while stack.len() > 0
        invariant
            r == bitmap@,
            r.well_formed(),
            all == junction_map(r),
            is_seed(r, seed),
            nodes@.dom().finite(),
            nodes@.dom().len() <= position_count(),
            nodes@.contains_key(seed) || stack@.contains(seed),
            forall|i: int| 0 <= i < stack@.len() ==> reachable(all, seed, #[trigger] stack@[i]),
            forall|p: Position| #[trigger]
                nodes@.contains_key(p) ==> reachable(all, seed, p) && nodes@[p] == node_at(r, p),
            forall|p: Position, q: Position|
                nodes@.contains_key(p) && #[trigger] is_edge(all, p, q) ==> nodes@.contains_key(q)
                    || stack@.contains(q),
        decreases position_count() - nodes@.dom().len(), stack@.len(),
    {
        let ghost before = stack@;
        let p: Position = stack.pop().unwrap();
        assert(before =~= stack@.push(p));
        assert(reachable(all, seed, p)) by {
            assert(before[before.len() - 1] == p);
        }
        assert forall|q: Position| before.contains(q) implies q == p || stack@.contains(q) by {
            let i = choose|i: int| 0 <= i < before.len() && before[i] == q;
            if i < stack@.len() {
                assert(stack@[i] == q);
            }
        }
        if !nodes.contains_key(p) {
            let node: Node = probe_node(bitmap, p.0, p.1);
            let mut neighbors: Vec<Position> = node.get_neighbor_positions(p.0, p.1);
            let ghost ends = neighbors@;
            let ghost kept = stack@;
            let ghost known = nodes@;
            proof {
                lemma_reached_is_open(r, seed, p);
                lemma_node_at(r, p);
                node.lemma_neighbors(p);
            }
            nodes.insert(p, node);
            stack.append(&mut neighbors);
            proof {
                nodes.lemma_finite();
                assert(nodes@.dom() =~= known.dom().insert(p));
                assert forall|q: Position| kept.contains(q) || ends.contains(q) implies stack@.contains(
                    q,
                ) by {
                    if kept.contains(q) {
                        let i = choose|i: int| 0 <= i < kept.len() && kept[i] == q;
                        assert(stack@[i] == q);
                    } else {
                        let i = choose|i: int| 0 <= i < ends.len() && ends[i] == q;
                        assert(stack@[kept.len() + i] == q);
                    }
                }
                assert forall|i: int| 0 <= i < stack@.len() implies reachable(
                    all,
                    seed,
                    #[trigger] stack@[i],
                ) by {
                    if i >= kept.len() {
                        let q = stack@[i];
                        assert(ends[i - kept.len()] == q);
                        assert(ends.contains(q));
                        assert(is_edge(all, p, q));
                        lemma_reachable_step(all, seed, p, q);
                    } else {
                        assert(stack@[i] == kept[i]);
                    }
                }
                assert forall|a: Position, b: Position|
                    nodes@.contains_key(a) && #[trigger] is_edge(all, a, b) implies nodes@.contains_key(
                    b,
                ) || stack@.contains(b) by {
                    if a == p {
                        assert(ends.contains(b));
                    } else {
                        assert(known.contains_key(b) || before.contains(b));
                    }
                }
            }
        }
    }
    proof {
        assert(!stack@.contains(seed));
        assert(nodes@ =~= sparse_graph(r)) by {
            assert forall|p: Position| reachable(all, seed, p) implies nodes@.contains_key(p) by {
                lemma_closed_set_holds_reachable(all, seed, p, nodes@.dom());
            }
        }
        lemma_sparse_graph_no_dangling(r);
    }
    Ok(NodeGraph::from_nodes(nodes))
}

/// One where the cell is open, zero where it is not.
pub open spec fn unit_edge(open: bool) -> u16 {
    if open {
        1
    } else {
        0
    }
}

/// The node of the dense strategy at `p`: an edge of length one to each
/// neighbouring cell that is open.
pub open spec fn dense_node_at(r: Raster, p: Position) -> Node {
    Node {
        left: unit_edge(r.is_open(p.0 - 1, p.1 as int)),
        right: unit_edge(r.is_open(p.0 + 1, p.1 as int)),
        top: unit_edge(r.is_open(p.0 as int, p.1 - 1)),
        bottom: unit_edge(r.is_open(p.0 as int, p.1 + 1)),
    }
}

/// The graph of the dense strategy: every open cell, joined to its open
/// neighbours.
pub open spec fn dense_graph(r: Raster) -> Map<Position, Node> {
    Map::new(
        |p: Position| r.is_open(p.0 as int, p.1 as int),
        |p: Position| dense_node_at(r, p),
    )
}

/// In the graph of the dense strategy no edge dangles.
pub proof fn lemma_dense_graph_no_dangling(r: Raster)
    requires
        r.well_formed(),
    ensures
        no_dangling_edges(dense_graph(r)),
{
}

/// The cell `p` comes before the cell `(x, y)` in scanning order.
pub open spec fn scanned_before(p: Position, x: int, y: int) -> bool {
    p.1 < y || (p.1 == y && p.0 < x)
}

/// `nodes` holds the dense nodes of the open cells that come before `(x, y)`
/// in scanning order, and nothing else.
pub open spec fn dense_so_far(r: Raster, nodes: Map<Position, Node>, x: int, y: int) -> bool {
    &&& forall|p: Position| #[trigger]
        nodes.contains_key(p) ==> r.is_open(p.0 as int, p.1 as int) && scanned_before(p, x, y)
            && nodes[p] == dense_node_at(r, p)
    &&& forall|p: Position| #[trigger]
        r.is_open(p.0 as int, p.1 as int) && scanned_before(p, x, y) ==> nodes.contains_key(p)
}

/// Extracts the dense graph of a bitmap: every open cell becomes a node
/// with an edge of length one to each open neighbour. Fails with `EmptyMaze`
/// when the bitmap has no open cell.
pub fn extract_dense(bitmap: &Bitmap) -> (result: Result<NodeGraph, ExtractError>)
    ensures
        bitmap@.well_formed(),
        match result {
            Ok(graph) => has_open_cell(bitmap@) && graph@ == dense_graph(bitmap@),
            Err(_) => !has_open_cell(bitmap@),
        },
{
    let ghost r = bitmap@;
    let width: usize = bitmap.width();
    let height: usize = bitmap.height();
    let mut nodes: PositionMap<Node> = PositionMap::new();
    let mut any: bool = false;
    let mut y: usize = 0;
    while y < height
        invariant
            r == bitmap@,
            r.well_formed(),
            width == r.width,
            height == r.height,
            y <= height,
            any <==> exists|p: Position| nodes@.contains_key(p),
            dense_so_far(r, nodes@, 0, y as int),
        decreases height - y,
    {
        let mut x: usize = 0;
        while x < width
            invariant
                r == bitmap@,
                r.well_formed(),
                width == r.width,
                height == r.height,
                y < height,
                x <= width,
                any <==> exists|p: Position| nodes@.contains_key(p),
                dense_so_far(r, nodes@, x as int, y as int),
            decreases width - x,
        {
            let cx: i64 = x as i64;
            let cy: i64 = y as i64;
            let ghost known = nodes@;
            if is_open(bitmap, cx, cy) {
                let left: u16 = if is_open(bitmap, cx - 1, cy) {
                    1
                } else {
                    0
                };
                let right: u16 = if is_open(bitmap, cx + 1, cy) {
                    1
                } else {
                    0
                };
                let top: u16 = if is_open(bitmap, cx, cy - 1) {
                    1
                } else {
                    0
                };
                let bottom: u16 = if is_open(bitmap, cx, cy + 1) {
                    1
                } else {
                    0
                };
                nodes.insert((x as u16, y as u16), Node { left, right, top, bottom });
                any = true;
                assert(nodes@.contains_key((x as u16, y as u16)));
            } else {
                assert forall|p: Position| nodes@.contains_key(p) implies known.contains_key(p) by {}
            }
            x = x + 1;
            assert(dense_so_far(r, nodes@, x as int, y as int)) by {
                assert forall|p: Position| #[trigger]
                    r.is_open(p.0 as int, p.1 as int) && scanned_before(
                        p,
                        x as int,
                        y as int,
                    ) implies nodes@.contains_key(p) by {
                    if scanned_before(p, x - 1, y as int) {
                        assert(known.contains_key(p));
                    }
                }
            }
        }
        y = y + 1;
    }
    if !any {
        return Err(ExtractError::EmptyMaze);
    }
    proof {
        assert(nodes@ =~= dense_graph(r));
        lemma_dense_graph_no_dangling(r);
        let some = choose|p: Position| nodes@.contains_key(p);
        assert(r.is_open(some.0 as int, some.1 as int));
    }
    Ok(NodeGraph::from_nodes(nodes))
}

/// How a bitmap is turned into a graph.
#[derive(Clone, Copy, Debug, PartialEq, Eq, Structural)]
pub enum Strategy {
    /// Junctions joined by corridors: nodes where a corridor ends, turns or
    /// forks, and run-lengths between them.
    Sparse,
    /// One node for each open cell, joined to its open neighbours.
    Dense,
}

/// The graph that a strategy makes of a bitmap.
pub open spec fn graph_of(r: Raster, strategy: Strategy) -> Map<Position, Node> {
    match strategy {
        Strategy::Sparse => sparse_graph(r),
        Strategy::Dense => dense_graph(r),
    }
}

/// Extracts the graph of a bitmap by the given strategy. Fails with
/// `EmptyMaze` when the bitmap has no open cell.
pub fn extract(bitmap: &Bitmap, strategy: Strategy) -> (result: Result<NodeGraph, ExtractError>)
    ensures
        bitmap@.well_formed(),
        match result {
            Ok(graph) => has_open_cell(bitmap@) && graph@ == graph_of(bitmap@, strategy),
            Err(_) => !has_open_cell(bitmap@),
        },
{
    match strategy {
        Strategy::Sparse => extract_sparse(bitmap),
        Strategy::Dense => extract_dense(bitmap),
    }
}

} // verus!
