//! The search as a state machine: what a search holds at any moment, and how
//! one expansion changes it.
//!
//! A search keeps an open list of positions to expand, each at a priority,
//! the set of positions already expanded, and for every position it has
//! discovered the cost of the way it came by and the position it came from.
//! One step takes the front of the open list, closes it, and, unless it is
//! the end, queues its neighbours that are not closed yet. A neighbour that
//! was discovered before gets its cost, parent and priority overwritten, not
//! compared: the search does not promise shortest routes.

use crate::graph::{is_edge, Node};
use crate::position::{manhattan_distance, Position};
use crate::queue::is_front;
use vstd::prelude::*;

verus! {

/// What a search holds between two steps.
#[verifier::ext_equal]
pub struct SearchState {
    /// The open list: positions waiting to be expanded, with their priorities.
    pub open: Map<Position, nat>,
    /// The positions expanded so far.
    pub closed: Set<Position>,
    /// The cost of the way by which each discovered position was last reached.
    pub cost: Map<Position, nat>,
    /// The position from which each discovered position was last reached.
    pub parent: Map<Position, Position>,
    /// Whether the end has been closed.
    pub found: bool,
}

/// The state a search begins in: only `start` is queued, at priority zero.
pub open spec fn initial(start: Position) -> SearchState {
    SearchState {
        open: Map::<Position, nat>::empty().insert(start, 0nat),
        closed: Set::empty(),
        cost: Map::empty(),
        parent: Map::empty(),
        found: false,
    }
}

/// A search is over when the end is closed or nothing is queued.
pub open spec fn finished(s: SearchState) -> bool {
    s.found || forall|p: Position| !s.open.contains_key(p)
}

/// The position that is expanded next: the front of the open list.
pub open spec fn current(s: SearchState) -> Position {
    choose|p: Position| is_front(s.open, p)
}

/// The recorded cost of `p`, zero where none is recorded.
pub open spec fn cost_of(s: SearchState, p: Position) -> nat {
    if s.cost.contains_key(p) {
        s.cost[p]
    } else {
        0
    }
}

/// The cost of reaching `p` over `cur`: the cost of `cur` and the length of
/// the edge, which is the distance between its ends.
pub open spec fn tentative_cost(s: SearchState, cur: Position, p: Position) -> nat {
    cost_of(s, cur) + manhattan_distance(cur, p) as nat
}

/// The priority at which `p` is queued when it is reached at `cost`: the
/// lesser of the cost and the distance that is left to `end`.
pub open spec fn priority(cost: nat, p: Position, end: Position) -> nat {
    if cost <= manhattan_distance(p, end) {
        cost
    } else {
        manhattan_distance(p, end) as nat
    }
}

/// The neighbours of `cur` that its expansion queues: the ends of its edges
/// that are not closed.
pub open spec fn fresh_neighbors(
    graph: Map<Position, Node>,
    s: SearchState,
    cur: Position,
) -> Set<Position> {
    Set::new(|p: Position| is_edge(graph, cur, p) && !s.closed.contains(p))
}

/// The state after `cur` has been closed and the positions in `fresh` have
/// been reached over it.
pub open spec fn expand_over(
    s: SearchState,
    end: Position,
    cur: Position,
    fresh: Set<Position>,
) -> SearchState {
    SearchState {
        open: Map::new(
            |p: Position| fresh.contains(p) || (s.open.contains_key(p) && p != cur),
            |p: Position|
                if fresh.contains(p) {
                    priority(tentative_cost(s, cur, p), p, end)
                } else {
                    s.open[p]
                },
        ),
        closed: s.closed.insert(cur),
        cost: Map::new(
            |p: Position| fresh.contains(p) || s.cost.contains_key(p),
            |p: Position|
                if fresh.contains(p) {
                    tentative_cost(s, cur, p)
                } else {
                    s.cost[p]
                },
        ),
        parent: Map::new(
            |p: Position| fresh.contains(p) || s.parent.contains_key(p),
            |p: Position|
                if fresh.contains(p) {
                    cur
                } else {
                    s.parent[p]
                },
        ),
        found: false,
    }
}

/// The state after the end has been taken from the open list and closed.
pub open spec fn arrive(s: SearchState, end: Position) -> SearchState {
    SearchState {
        open: s.open.remove(end),
        closed: s.closed.insert(end),
        cost: s.cost,
        parent: s.parent,
        found: true,
    }
}

/// One step of the search. A finished search stays as it is. Otherwise the
/// front of the open list is closed; if it is the end, the search has found
/// it, and else its fresh neighbours are reached over it.
pub open spec fn step(graph: Map<Position, Node>, end: Position, s: SearchState) -> SearchState {
    if finished(s) {
        s
    } else if current(s) == end {
        arrive(s, end)
    } else {
        expand_over(s, end, current(s), fresh_neighbors(graph, s, current(s)))
    }
}

/// The state of the search from `start` to `end` after `n` steps.
pub open spec fn run(graph: Map<Position, Node>, start: Position, end: Position, n: nat) -> SearchState
    decreases n,
{
    if n == 0 {
        initial(start)
    } else {
        step(graph, end, run(graph, start, end, (n - 1) as nat))
    }
}

/// `closed` and `parent` are what the search from `start` to `end` leaves
/// behind: the closed set and the parent links of the state in which it is
/// over.
pub open spec fn is_search_result(
    graph: Map<Position, Node>,
    start: Position,
    end: Position,
    closed: Set<Position>,
    parent: Map<Position, Position>,
) -> bool {
    exists|n: nat| result_after(graph, start, end, closed, parent, n)
}

/// After `n` steps the search is over and has left `closed` and `parent`
/// behind.
pub open spec fn result_after(
    graph: Map<Position, Node>,
    start: Position,
    end: Position,
    closed: Set<Position>,
    parent: Map<Position, Position>,
    n: nat,
) -> bool {
    let s = run(graph, start, end, n);
    finished(s) && s.closed == closed && s.parent == parent
}

/// A search that is over stays in the state it is in.
pub proof fn lemma_run_rests(
    graph: Map<Position, Node>,
    start: Position,
    end: Position,
    n: nat,
    m: nat,
)
    requires
        finished(run(graph, start, end, n)),
        n <= m,
    ensures
        run(graph, start, end, m) == run(graph, start, end, n),
    decreases m,
{
    if n < m {
        lemma_run_rests(graph, start, end, n, (m - 1) as nat);
    }
}

/// A search has one result: the same graph, start and end always leave the
/// same closed set and the same parent links behind.
pub proof fn lemma_search_deterministic(
    graph: Map<Position, Node>,
    start: Position,
    end: Position,
    closed_a: Set<Position>,
    parent_a: Map<Position, Position>,
    closed_b: Set<Position>,
    parent_b: Map<Position, Position>,
)
    requires
        is_search_result(graph, start, end, closed_a, parent_a),
        is_search_result(graph, start, end, closed_b, parent_b),
    ensures
        closed_a == closed_b,
        parent_a == parent_b,
{
    let n = choose|n: nat| result_after(graph, start, end, closed_a, parent_a, n);
    let m = choose|m: nat| result_after(graph, start, end, closed_b, parent_b, m);
    if n <= m {
        lemma_run_rests(graph, start, end, n, m);
    } else {
        lemma_run_rests(graph, start, end, m, n);
    }
}

} // verus!
