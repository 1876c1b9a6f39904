//! Probing a bitmap along an axis: how far a corridor runs from a cell before
//! it meets a wall, the edge of the bitmap, or a junction.

use crate::bitmap::{classify, Bitmap, BlockState, Raster};
use crate::graph::Node;
use crate::position::Position;
use vstd::prelude::*;

verus! {

/// One of the four axis directions.
#[derive(Clone, Copy, Debug, PartialEq, Eq, Structural)]
pub enum Direction {
    /// Towards column zero.
    Left,
    /// Away from column zero.
    Right,
    /// Towards row zero.
    Top,
    /// Away from row zero.
    Bottom,
}

/// The cell `k` steps from `(x, y)` in the direction `dir`.
pub open spec fn cell_at(x: int, y: int, dir: Direction, k: int) -> (int, int) {
    match dir {
        Direction::Left => (x - k, y),
        Direction::Right => (x + k, y),
        Direction::Top => (x, y - k),
        Direction::Bottom => (x, y + k),
    }
}

/// A cell beside `(x, y)`, across the direction `dir`, is open: above or
/// below a horizontal probe, left or right of a vertical one.
pub open spec fn side_opening(r: Raster, x: int, y: int, dir: Direction) -> bool {
    match dir {
        Direction::Left | Direction::Right => r.is_open(x, y + 1) || r.is_open(x, y - 1),
        Direction::Top | Direction::Bottom => r.is_open(x + 1, y) || r.is_open(x - 1, y),
    }
}

/// A probe from `(x, y)` in the direction `dir` does not go past the cell at
/// offset `k`: that cell is not open, or it is open and has a side opening.
pub open spec fn stops(r: Raster, x: int, y: int, dir: Direction, k: int) -> bool {
    let c = cell_at(x, y, dir, k);
    !r.is_open(c.0, c.1) || side_opening(r, c.0, c.1, dir)
}

/// `k` is the offset at which the probe stops: the first from 1 on.
pub open spec fn first_stop(r: Raster, x: int, y: int, dir: Direction, k: int) -> bool {
    &&& k >= 1
    &&& stops(r, x, y, dir, k)
    &&& forall|j: int| 1 <= j < k ==> !#[trigger] stops(r, x, y, dir, j)
}

/// The run-length of a probe that stops at offset `k`: `k` itself where the
/// cell there is open, which makes it a junction, and `k - 1`, the last open
/// cell before it, where it is not.
pub open spec fn run_to(r: Raster, x: int, y: int, dir: Direction, k: int) -> int {
    let c = cell_at(x, y, dir, k);
    if r.is_open(c.0, c.1) {
        k
    } else {
        k - 1
    }
}

/// The run-length from `(x, y)` in the direction `dir`.
pub open spec fn run_length(r: Raster, x: int, y: int, dir: Direction) -> int {
    run_to(r, x, y, dir, choose|k: int| first_stop(r, x, y, dir, k))
}

/// The node that stands at `p`: its four run-lengths where the cell is open,
/// four zeros where it is not.
pub open spec fn node_at(r: Raster, p: Position) -> Node {
    if r.is_open(p.0 as int, p.1 as int) {
        Node {
            left: run_length(r, p.0 as int, p.1 as int, Direction::Left) as u16,
            right: run_length(r, p.0 as int, p.1 as int, Direction::Right) as u16,
            top: run_length(r, p.0 as int, p.1 as int, Direction::Top) as u16,
            bottom: run_length(r, p.0 as int, p.1 as int, Direction::Bottom) as u16,
        }
    } else {
        Node { left: 0, right: 0, top: 0, bottom: 0 }
    }
}

/// A probe stops at one offset only.
pub proof fn lemma_first_stop_unique(r: Raster, x: int, y: int, dir: Direction, a: int, b: int)
    requires
        first_stop(r, x, y, dir, a),
        first_stop(r, x, y, dir, b),
    ensures
        a == b,
{
    if a < b {
        assert(!stops(r, x, y, dir, a));
    } else if b < a {
        assert(!stops(r, x, y, dir, b));
    }
}

/// A probe that stops at offset `k` has the run-length of that stop.
pub proof fn lemma_run_length_at(r: Raster, x: int, y: int, dir: Direction, k: int)
    requires
        first_stop(r, x, y, dir, k),
    ensures
        run_length(r, x, y, dir) == run_to(r, x, y, dir, k),
{
    let chosen = choose|k: int| first_stop(r, x, y, dir, k);
    lemma_first_stop_unique(r, x, y, dir, k, chosen);
}

/// A probe that has passed every offset below `k` stops at `k` or later, and
/// no later than any offset at which it is known to stop.
proof fn lemma_stop_from(r: Raster, x: int, y: int, dir: Direction, k: int, limit: int) -> (found:
    int)
    requires
        1 <= k <= limit,
        stops(r, x, y, dir, limit),
        forall|j: int| 1 <= j < k ==> !#[trigger] stops(r, x, y, dir, j),
    ensures
        k <= found <= limit,
        first_stop(r, x, y, dir, found),
    decreases limit - k,
{
    if stops(r, x, y, dir, k) {
        k
    } else {
        lemma_stop_from(r, x, y, dir, k + 1, limit)
    }
}

/// From a cell of a well-formed bitmap every probe stops, and its run ends
/// inside the bitmap: on the cell itself when the run-length is zero, and
/// else on an open cell.
pub proof fn lemma_run_length(r: Raster, x: int, y: int, dir: Direction)
    requires
        r.well_formed(),
        r.in_bounds(x, y),
    ensures
        exists|k: int| first_stop(r, x, y, dir, k),
        0 <= run_length(r, x, y, dir),
        ({
            let c = cell_at(x, y, dir, run_length(r, x, y, dir));
            r.in_bounds(c.0, c.1) && (run_length(r, x, y, dir) > 0 ==> r.is_open(c.0, c.1))
        }),
{
    let limit = r.width + r.height;
    let far = cell_at(x, y, dir, limit);
    assert(!r.in_bounds(far.0, far.1));
    assert(stops(r, x, y, dir, limit));
    let k = lemma_stop_from(r, x, y, dir, 1, limit);
    lemma_run_length_at(r, x, y, dir, k);
    let c = cell_at(x, y, dir, k);
    if !r.is_open(c.0, c.1) && k > 1 {
        assert(!stops(r, x, y, dir, k - 1));
    }
}

/// The node at an open cell of a well-formed bitmap holds the four
/// run-lengths as they are, and each of its edges ends on an open cell.
pub proof fn lemma_node_at(r: Raster, p: Position)
    requires
        r.well_formed(),
        r.is_open(p.0 as int, p.1 as int),
    ensures
        node_at(r, p).left == run_length(r, p.0 as int, p.1 as int, Direction::Left),
        node_at(r, p).right == run_length(r, p.0 as int, p.1 as int, Direction::Right),
        node_at(r, p).top == run_length(r, p.0 as int, p.1 as int, Direction::Top),
        node_at(r, p).bottom == run_length(r, p.0 as int, p.1 as int, Direction::Bottom),
        node_at(r, p).fits(p),
        forall|q: Position| #[trigger] node_at(r, p).links(p, q) ==> r.is_open(q.0 as int, q.1 as int),
{
    lemma_run_length(r, p.0 as int, p.1 as int, Direction::Left);
    lemma_run_length(r, p.0 as int, p.1 as int, Direction::Right);
    lemma_run_length(r, p.0 as int, p.1 as int, Direction::Top);
    lemma_run_length(r, p.0 as int, p.1 as int, Direction::Bottom);
}

/// Whether the cell `(x, y)` exists and is open.
pub fn is_open(bitmap: &Bitmap, x: i64, y: i64) -> (open: bool)
    ensures
        bitmap@.well_formed(),
        open == bitmap@.is_open(x as int, y as int),
{
    match classify(bitmap, x, y) {
        BlockState::Open => true,
        _ => false,
    }
}

/// Probes from `(x, y)` in the direction `dir`, cell by cell, and returns the
/// run-length: the offset of the first open cell with a side opening, or of
/// the last open cell before a wall or the edge of the bitmap, whichever
/// comes first.
pub fn probe(bitmap: &Bitmap, x: u16, y: u16, dir: Direction) -> (d: u16)
    ensures
        bitmap@.well_formed(),
        d == run_length(bitmap@, x as int, y as int, dir),
        exists|k: int| first_stop(bitmap@, x as int, y as int, dir, k),
{
    let ghost r = bitmap@;
    let mut offset: i64 = 1;
    let mut found: Option<u16> = None;
    let width: usize = bitmap.width();
    while found.is_none()
        invariant
            r == bitmap@,
            r.well_formed(),
            1 <= offset <= 0x1_0000,
            forall|j: int| 1 <= j < offset ==> !#[trigger] stops(r, x as int, y as int, dir, j),
            found matches Some(d) ==> first_stop(r, x as int, y as int, dir, offset as int) && d
                == run_to(r, x as int, y as int, dir, offset as int),
        decreases
                (if found.is_none() {
                    1int
                } else {
                    0int
                }),
                0x1_0000 - offset,
    {
        let (cx, cy): (i64, i64) = match dir {
            Direction::Left => (x as i64 - offset, y as i64),
            Direction::Right => (x as i64 + offset, y as i64),
            Direction::Top => (x as i64, y as i64 - offset),
            Direction::Bottom => (x as i64, y as i64 + offset),
        };
        assert((cx as int, cy as int) == cell_at(x as int, y as int, dir, offset as int));
        if !is_open(bitmap, cx, cy) {
            found = Some((offset - 1) as u16);
        } else {
            let beside: bool = match dir {
                Direction::Left | Direction::Right => is_open(bitmap, cx, cy + 1) || is_open(
                    bitmap,
                    cx,
                    cy - 1,
                ),
                Direction::Top | Direction::Bottom => is_open(bitmap, cx + 1, cy) || is_open(
                    bitmap,
                    cx - 1,
                    cy,
                ),
            };
            assert(beside == side_opening(r, cx as int, cy as int, dir));
            if beside {
                found = Some(offset as u16);
            } else {
                offset = offset + 1;
            }
        }
    }
    proof {
        lemma_run_length_at(r, x as int, y as int, dir, offset as int);
    }
    found.unwrap()
}

/// The node that stands at `(x, y)`: the four run-lengths from there, or four
/// zeros where the cell is not open.
pub fn probe_node(bitmap: &Bitmap, x: u16, y: u16) -> (node: Node)
    ensures
        bitmap@.well_formed(),
        node == node_at(bitmap@, (x, y)),
{
    if !is_open(bitmap, x as i64, y as i64) {
        return Node { left: 0, right: 0, top: 0, bottom: 0 };
    }
    let left: u16 = probe(bitmap, x, y, Direction::Left);
    let right: u16 = probe(bitmap, x, y, Direction::Right);
    let top: u16 = probe(bitmap, x, y, Direction::Top);
    let bottom: u16 = probe(bitmap, x, y, Direction::Bottom);
    Node { left, right, top, bottom }
}

} // verus!
