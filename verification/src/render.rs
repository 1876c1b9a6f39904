//! What to paint: the cells of the straight lines that join neighbouring
//! positions of a route, or a position and its parent.

use crate::position::Position;
use vstd::prelude::*;

verus! {

/// The lesser of two coordinates.
pub open spec fn lesser(a: u16, b: u16) -> int {
    if a <= b {
        a as int
    } else {
        b as int
    }
}

/// The greater of two coordinates.
pub open spec fn greater(a: u16, b: u16) -> int {
    if a <= b {
        b as int
    } else {
        a as int
    }
}

/// The cells of the row between two positions of one row, both included,
/// from the left; none where the positions are in different rows.
pub open spec fn row_cells(a: Position, b: Position) -> Seq<Position> {
    if a.1 == b.1 {
        Seq::new(
            (greater(a.0, b.0) - lesser(a.0, b.0) + 1) as nat,
            |i: int| ((lesser(a.0, b.0) + i) as u16, a.1),
        )
    } else {
        Seq::empty()
    }
}

/// The cells of the column between two positions of one column, both
/// included, from the top; none where the positions are in different columns.
pub open spec fn column_cells(a: Position, b: Position) -> Seq<Position> {
    if a.0 == b.0 {
        Seq::new(
            (greater(a.1, b.1) - lesser(a.1, b.1) + 1) as nat,
            |i: int| (a.0, (lesser(a.1, b.1) + i) as u16),
        )
    } else {
        Seq::empty()
    }
}

/// The cells of the line between two positions: those of the row they share,
/// then those of the column they share. Positions that share neither have no
/// line; a position and itself share both.
pub open spec fn line_cells(a: Position, b: Position) -> Seq<Position> {
    row_cells(a, b) + column_cells(a, b)
}

/// The cells to paint for the line from `node` to `next`.
pub fn line_between_nodes(node: Position, next: Position) -> (cells: Vec<Position>)
    ensures
        cells@ == line_cells(node, next),
{
    let mut cells: Vec<Position> = Vec::new();
    if node.1 == next.1 {
        let start: u16 = if node.0 <= next.0 {
            node.0
        } else {
            next.0
        };
        let end: u16 = if node.0 <= next.0 {
            next.0
        } else {
            node.0
        };
        let mut i: u32 = start as u32;
        while i <= end as u32
            invariant
                node.1 == next.1,
                start == lesser(node.0, next.0),
                end == greater(node.0, next.0),
                start <= i <= end + 1,
                cells@.len() == i - start,
                forall|k: int| 0 <= k < cells@.len() ==> cells@[k] == ((start + k) as u16, node.1),
            decreases end + 1 - i,
        {
            cells.push((i as u16, node.1));
            i = i + 1;
        }
        assert(cells@ =~= row_cells(node, next));
    }
    let ghost row = cells@;
    if node.0 == next.0 {
        let start: u16 = if node.1 <= next.1 {
            node.1
        } else {
            next.1
        };
        let end: u16 = if node.1 <= next.1 {
            next.1
        } else {
            node.1
        };
        let mut i: u32 = start as u32;
        while i <= end as u32
            invariant
                node.0 == next.0,
                start == lesser(node.1, next.1),
                end == greater(node.1, next.1),
                start <= i <= end + 1,
                cells@.len() == row.len() + i - start,
                forall|k: int| 0 <= k < row.len() ==> cells@[k] == row[k],
                forall|k: int|
                    row.len() <= k < cells@.len() ==> cells@[k] == (
                        node.0,
                        (start + k - row.len()) as u16,
                    ),
            decreases end + 1 - i,
        {
            cells.push((node.0, i as u16));
            i = i + 1;
        }
    }
    assert(cells@ =~= line_cells(node, next));
    cells
}

} // verus!
