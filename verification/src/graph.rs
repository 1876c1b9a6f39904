//! The node graph of a maze: junctions, and the corridors between them as
//! run-lengths along the four axis directions.

use crate::position::Position;
use crate::table::PositionMap;
use vstd::prelude::*;

verus! {

/// A junction of the maze. Each field is the number of cells to the next
/// junction in that direction; zero means that there is no way in that
/// direction.
#[derive(Clone, Copy, Debug, PartialEq, Eq, Structural, Hash)]
pub struct Node {
    pub left: u16,
    pub right: u16,
    pub top: u16,
    pub bottom: u16,
}

impl Node {
    /// Every run-length of a node at `p` ends on a position.
    pub open spec fn fits(self, p: Position) -> bool {
        &&& self.left <= p.0
        &&& p.0 + self.right <= u16::MAX
        &&& self.top <= p.1
        &&& p.1 + self.bottom <= u16::MAX
    }

    /// The node, standing at `p`, has an edge that ends on `q`.
    pub open spec fn links(self, p: Position, q: Position) -> bool {
        ||| self.left > 0 && q.0 == p.0 - self.left && q.1 == p.1
        ||| self.right > 0 && q.0 == p.0 + self.right && q.1 == p.1
        ||| self.top > 0 && q.0 == p.0 && q.1 == p.1 - self.top
        ||| self.bottom > 0 && q.0 == p.0 && q.1 == p.1 + self.bottom
    }

    /// The positions that the edges of the node, standing at `p`, end on: to
    /// the left, to the right, above and below, in this order, leaving out
    /// the directions without an edge.
    pub open spec fn neighbors(self, p: Position) -> Seq<Position> {
        let left = if 0 < self.left <= p.0 {
            seq![((p.0 - self.left) as u16, p.1)]
        } else {
            seq![]
        };
        let right = if 0 < self.right && p.0 + self.right <= u16::MAX {
            seq![((p.0 + self.right) as u16, p.1)]
        } else {
            seq![]
        };
        let top = if 0 < self.top <= p.1 {
            seq![(p.0, (p.1 - self.top) as u16)]
        } else {
            seq![]
        };
        let bottom = if 0 < self.bottom && p.1 + self.bottom <= u16::MAX {
            seq![(p.0, (p.1 + self.bottom) as u16)]
        } else {
            seq![]
        };
        left + right + top + bottom
    }

    /// The neighbors are the ends of the edges, each once.
    pub proof fn lemma_neighbors(self, p: Position)
        ensures
            forall|q: Position| #[trigger] self.neighbors(p).contains(q) <==> self.links(p, q),
            self.neighbors(p).no_duplicates(),
            self.neighbors(p).len() <= 4,
    {
        let left: Seq<Position> = if 0 < self.left <= p.0 {
            seq![((p.0 - self.left) as u16, p.1)]
        } else {
            seq![]
        };
        let right: Seq<Position> = if 0 < self.right && p.0 + self.right <= u16::MAX {
            seq![((p.0 + self.right) as u16, p.1)]
        } else {
            seq![]
        };
        let top: Seq<Position> = if 0 < self.top <= p.1 {
            seq![(p.0, (p.1 - self.top) as u16)]
        } else {
            seq![]
        };
        let bottom: Seq<Position> = if 0 < self.bottom && p.1 + self.bottom <= u16::MAX {
            seq![(p.0, (p.1 + self.bottom) as u16)]
        } else {
            seq![]
        };
        let all = left + right + top + bottom;
        assert(all == self.neighbors(p));
        assert forall|q: Position| #[trigger] all.contains(q) <==> self.links(p, q) by {
            if self.links(p, q) {
                if self.left > 0 && q.0 == p.0 - self.left && q.1 == p.1 {
                    assert(all[0] == q);
                } else if self.right > 0 && q.0 == p.0 + self.right && q.1 == p.1 {
                    assert(all[left.len() as int] == q);
                } else if self.top > 0 && q.0 == p.0 && q.1 == p.1 - self.top {
                    assert(all[(left.len() + right.len()) as int] == q);
                } else {
                    assert(all[(left.len() + right.len() + top.len()) as int] == q);
                }
            }
        }
    }

    /// The positions that the edges of the node end on when it stands at
    /// `(x, y)`. An edge that would end outside the positions is left out.
    pub fn get_neighbor_positions(&self, x: u16, y: u16) -> (neighbors: Vec<(u16, u16)>)
        ensures
            neighbors@ == self.neighbors((x, y)),
    {
        let mut neighbors: Vec<(u16, u16)> = Vec::new();
        if self.left > 0 && self.left <= x {
            neighbors.push((x - self.left, y));
        }
        if self.right > 0 && self.right <= u16::MAX - x {
            neighbors.push((x + self.right, y));
        }
        if self.top > 0 && self.top <= y {
            neighbors.push((x, y - self.top));
        }
        if self.bottom > 0 && self.bottom <= u16::MAX - y {
            neighbors.push((x, y + self.bottom));
        }
        assert(neighbors@ =~= self.neighbors((x, y)));
        neighbors
    }
}

/// `graph` has a node at `p` with an edge that ends on `q`.
pub open spec fn is_edge(graph: Map<Position, Node>, p: Position, q: Position) -> bool {
    graph.contains_key(p) && graph[p].links(p, q)
}

/// No edge dangles: every run-length of every node ends on a position, and
/// that position is a node of the graph.
pub open spec fn no_dangling_edges(graph: Map<Position, Node>) -> bool {
    &&& forall|p: Position| #[trigger] graph.contains_key(p) ==> graph[p].fits(p)
    &&& forall|p: Position, q: Position| #[trigger] is_edge(graph, p, q) ==> graph.contains_key(q)
}

/// The step from `path[i]` to `path[i + 1]` goes along an edge.
pub open spec fn walk_step(graph: Map<Position, Node>, path: Seq<Position>, i: int) -> bool {
    is_edge(graph, path[i], path[i + 1])
}

/// `path` has at least one position and goes along edges from each position
/// to the next.
pub open spec fn is_walk(graph: Map<Position, Node>, path: Seq<Position>) -> bool {
    &&& path.len() >= 1
    &&& forall|i: int| 0 <= i < path.len() - 1 ==> #[trigger] walk_step(graph, path, i)
}

/// `path` is a walk from `from` to `to`.
pub open spec fn is_walk_between(
    graph: Map<Position, Node>,
    from: Position,
    to: Position,
    path: Seq<Position>,
) -> bool {
    is_walk(graph, path) && path[0] == from && path.last() == to
}

/// A walk leads from `from` to `to`. Every position reaches itself.
pub open spec fn reachable(graph: Map<Position, Node>, from: Position, to: Position) -> bool {
    exists|path: Seq<Position>| is_walk_between(graph, from, to, path)
}

/// Every position reaches itself.
pub proof fn lemma_reachable_self(graph: Map<Position, Node>, p: Position)
    ensures
        reachable(graph, p, p),
{
    assert(is_walk_between(graph, p, p, seq![p]));
}

/// A walk can be continued along an edge.
pub proof fn lemma_walk_push(
    graph: Map<Position, Node>,
    from: Position,
    to: Position,
    path: Seq<Position>,
    next: Position,
)
    requires
        is_walk_between(graph, from, to, path),
        is_edge(graph, to, next),
    ensures
        is_walk_between(graph, from, next, path.push(next)),
{
    let longer = path.push(next);
    assert forall|i: int| 0 <= i < longer.len() - 1 implies #[trigger] walk_step(
        graph,
        longer,
        i,
    ) by {
        if i < path.len() - 1 {
            assert(walk_step(graph, path, i));
        }
    }
}

/// What is reachable stays reachable along an edge.
pub proof fn lemma_reachable_step(
    graph: Map<Position, Node>,
    from: Position,
    to: Position,
    next: Position,
)
    requires
        reachable(graph, from, to),
        is_edge(graph, to, next),
    ensures
        reachable(graph, from, next),
{
    let path = choose|path: Seq<Position>| is_walk_between(graph, from, to, path);
    lemma_walk_push(graph, from, to, path, next);
}

/// A set that holds `from` and is closed under the edges holds everything
/// that `from` reaches.
pub proof fn lemma_closed_set_holds_reachable(
    graph: Map<Position, Node>,
    from: Position,
    to: Position,
    set: Set<Position>,
)
    requires
        set.contains(from),
        forall|p: Position, q: Position|
            set.contains(p) && #[trigger] is_edge(graph, p, q) ==> set.contains(q),
        reachable(graph, from, to),
    ensures
        set.contains(to),
{
    let path = choose|path: Seq<Position>| is_walk_between(graph, from, to, path);
    lemma_walk_stays_in_set(graph, path, set, path.len() - 1);
}

/// Along a walk that starts in a set closed under the edges, every position
/// is in the set.
proof fn lemma_walk_stays_in_set(
    graph: Map<Position, Node>,
    path: Seq<Position>,
    set: Set<Position>,
    i: int,
)
    requires
        is_walk(graph, path),
        set.contains(path[0]),
        forall|p: Position, q: Position|
            set.contains(p) && #[trigger] is_edge(graph, p, q) ==> set.contains(q),
        0 <= i < path.len(),
    ensures
        set.contains(path[i]),
    decreases i,
{
    if i > 0 {
        lemma_walk_stays_in_set(graph, path, set, i - 1);
        assert(walk_step(graph, path, i - 1));
    }
}

/// The node graph: a map from positions to nodes in which no edge dangles.
pub struct NodeGraph {
    nodes: PositionMap<Node>,
}

impl View for NodeGraph {
    type V = Map<Position, Node>;

    closed spec fn view(&self) -> Map<Position, Node> {
        self.nodes@
    }
}

impl NodeGraph {
    #[verifier::type_invariant]
    closed spec fn valid(self) -> bool {
        no_dangling_edges(self.nodes@)
    }

    /// Makes a graph of nodes among which no edge dangles.
    pub(crate) fn from_nodes(nodes: PositionMap<Node>) -> (graph: NodeGraph)
        requires
            no_dangling_edges(nodes@),
        ensures
            graph@ == nodes@,
    {
        NodeGraph { nodes }
    }

    /// Number of nodes.
    pub fn len(&self) -> (n: usize)
        ensures
            no_dangling_edges(self@),
            self@.dom().finite(),
            n == self@.dom().len(),
    {
        proof {
            use_type_invariant(self);
        }
        self.nodes.len()
    }

    /// Whether `p` is a node.
    pub fn contains(&self, p: Position) -> (b: bool)
        ensures
            no_dangling_edges(self@),
            b == self@.contains_key(p),
    {
        proof {
            use_type_invariant(self);
        }
        self.nodes.contains_key(p)
    }

    /// The node at `p`, if there is one.
    pub fn get(&self, p: Position) -> (r: Option<Node>)
        ensures
            no_dangling_edges(self@),
            r == (if self@.contains_key(p) {
                Some(self@[p])
            } else {
                None
            }),
    {
        proof {
            use_type_invariant(self);
        }
        match self.nodes.get(p) {
            Some(node) => Some(*node),
            None => None,
        }
    }
}

/// Order of the cells as they are scanned: row by row from the top, each row
/// from the left.
pub open spec fn scan_le(a: Position, b: Position) -> bool {
    a.1 < b.1 || (a.1 == b.1 && a.0 <= b.0)
}

/// `p` is the entrance of a maze of the given sides: the first node in
/// scanning order among the columns `0..width` and the rows `0..height`.
pub open spec fn is_entrance(graph: Map<Position, Node>, width: int, height: int, p: Position) -> bool {
    &&& graph.contains_key(p)
    &&& p.0 < width
    &&& p.1 < height
    &&& forall|q: Position| #[trigger]
        graph.contains_key(q) && q.0 < width && q.1 < height ==> scan_le(p, q)
}

/// `p` is the exit of a maze of the given sides: the last node in scanning
/// order among the columns `1..=width` and the rows `1..=height`. The first
/// column and the first row are never looked at.
pub open spec fn is_exit(graph: Map<Position, Node>, width: int, height: int, p: Position) -> bool {
    &&& graph.contains_key(p)
    &&& 1 <= p.0 <= width
    &&& 1 <= p.1 <= height
    &&& forall|q: Position| #[trigger]
        graph.contains_key(q) && 1 <= q.0 <= width && 1 <= q.1 <= height ==> scan_le(q, p)
}

/// The first node in scanning order among the columns `0..width` and the rows
/// `0..height`.
fn find_entrance(maze: &NodeGraph, width: u16, height: u16) -> (r: Option<(u16, u16)>)
    ensures
        match r {
            Some(p) => is_entrance(maze@, width as int, height as int, p),
            None => forall|q: Position| #[trigger]
                maze@.contains_key(q) ==> !(q.0 < width && q.1 < height),
        },
{
    let mut y: u16 = 0;
    while y < height
        invariant
            y <= height,
            forall|q: Position| #[trigger]
                maze@.contains_key(q) ==> !(q.0 < width && q.1 < y),
        decreases height - y,
    {
        let mut x: u16 = 0;
        while x < width
            invariant
                y < height,
                x <= width,
                forall|q: Position| #[trigger]
                    maze@.contains_key(q) ==> !(q.0 < width && q.1 < y),
                forall|q: Position| #[trigger]
                    maze@.contains_key(q) ==> !(q.0 < x && q.1 == y),
            decreases width - x,
        {
            if maze.contains((x, y)) {
                return Some((x, y));
            }
            x = x + 1;
        }
        y = y + 1;
    }
    None
}

/// The last node in scanning order among the columns `1..=width` and the rows
/// `1..=height`.
fn find_exit(maze: &NodeGraph, width: u16, height: u16) -> (r: Option<(u16, u16)>)
    ensures
        match r {
            Some(p) => is_exit(maze@, width as int, height as int, p),
            None => forall|q: Position| #[trigger]
                maze@.contains_key(q) ==> !(1 <= q.0 <= width && 1 <= q.1 <= height),
        },
{
    let mut y: u16 = 0;
    while y < height
        invariant
            y <= height,
            forall|q: Position| #[trigger]
                maze@.contains_key(q) ==> !(1 <= q.0 <= width && height - y < q.1 <= height),
        decreases height - y,
    {
        let mut x: u16 = 0;
        while x < width
            invariant
                y < height,
                x <= width,
                forall|q: Position| #[trigger]
                    maze@.contains_key(q) ==> !(1 <= q.0 <= width && height - y < q.1 <= height),
                forall|q: Position| #[trigger]
                    maze@.contains_key(q) ==> !(width - x < q.0 <= width && q.1 == height - y),
            decreases width - x,
        {
            let candidate: (u16, u16) = (width - x, height - y);
            if maze.contains(candidate) {
                return Some(candidate);
            }
            x = x + 1;
        }
        y = y + 1;
    }
    None
}

/// Looks for the way in and the way out of a maze of the given sides.
///
/// The way in is the first node met when the columns `0..width` of the rows
/// `0..height` are scanned row by row. The way out is the first node met when
/// the columns `width..=1` of the rows `height..=1` are scanned backwards,
/// that is the last node of that range in scanning order. Either is `None`
/// when its range holds no node.
pub fn find_exits(maze: &NodeGraph, width: usize, height: usize) -> (exits: (
    Option<(u16, u16)>,
    Option<(u16, u16)>,
))
    requires
        width <= u16::MAX,
        height <= u16::MAX,
    ensures
        match exits.0 {
            Some(p) => is_entrance(maze@, width as int, height as int, p),
            None => forall|q: Position| #[trigger]
                maze@.contains_key(q) ==> !(q.0 < width && q.1 < height),
        },
        match exits.1 {
            Some(p) => is_exit(maze@, width as int, height as int, p),
            None => forall|q: Position| #[trigger]
                maze@.contains_key(q) ==> !(1 <= q.0 <= width && 1 <= q.1 <= height),
        },
{
    let start = find_entrance(maze, width as u16, height as u16);
    let end = find_exit(maze, width as u16, height as u16);
    (start, end)
}

} // verus!
