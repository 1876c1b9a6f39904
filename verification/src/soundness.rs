//! What holds of a search in every state, and what follows for its result.

use crate::frontier::{
    arrive, current, expand_over, finished, fresh_neighbors, initial, is_search_result,
    lemma_search_deterministic, result_after, run, step, SearchState,
};
use crate::graph::{
    is_edge, is_walk, lemma_closed_set_holds_reachable, lemma_reachable_self, lemma_reachable_step,
    reachable, walk_step, Node,
};
use crate::position::{manhattan_distance, Position};
use crate::queue::{is_front, lemma_front_exists};
use crate::route::{is_chain, is_route, parent_step};
use vstd::prelude::*;

verus! {

/// No edge is longer than this: twice the greatest coordinate.
pub open spec fn max_edge() -> nat {
    0x1_FFFE
}

/// `route` leads from `start` to `p` along the parent links, over closed
/// positions only.
pub open spec fn closed_route(
    s: SearchState,
    start: Position,
    p: Position,
    route: Seq<Position>,
) -> bool {
    &&& is_chain(s.parent, route)
    &&& route[0] == start
    &&& route.last() == p
    &&& forall|i: int| 0 <= i < route.len() ==> s.closed.contains(#[trigger] route[i])
}

/// What is queued is not closed, can be reached from the start, and, but for
/// the start itself, has a parent.
pub open spec fn open_is_sound(graph: Map<Position, Node>, start: Position, s: SearchState) -> bool {
    forall|p: Position| #[trigger]
        s.open.contains_key(p) ==> !s.closed.contains(p) && reachable(graph, start, p) && (p
            == start || s.parent.contains_key(p))
}

/// A parent is closed and has an edge to its child, and the child has a cost.
pub open spec fn parents_are_sound(graph: Map<Position, Node>, s: SearchState) -> bool {
    forall|p: Position| #[trigger]
        s.parent.contains_key(p) ==> s.closed.contains(s.parent[p]) && is_edge(
            graph,
            s.parent[p],
            p,
        ) && s.cost.contains_key(p)
}

/// What is closed can be reached from the start, and the parent links lead
/// to it from the start over closed positions.
pub open spec fn closed_is_sound(graph: Map<Position, Node>, start: Position, s: SearchState) -> bool {
    forall|p: Position| #[trigger]
        s.closed.contains(p) ==> reachable(graph, start, p) && exists|route: Seq<Position>|
            closed_route(s, start, p, route)
}

/// While the end is not found, every edge from a closed position ends on a
/// position that is closed or queued.
pub open spec fn frontier_is_complete(graph: Map<Position, Node>, s: SearchState) -> bool {
    !s.found ==> forall|p: Position, q: Position|
        s.closed.contains(p) && #[trigger] is_edge(graph, p, q) ==> s.closed.contains(q)
            || s.open.contains_key(q)
}

/// No cost exceeds the greatest edge length times the number of closed
/// positions.
pub open spec fn costs_are_bounded(s: SearchState) -> bool {
    forall|p: Position| #[trigger] s.cost.contains_key(p) ==> s.cost[p] <= max_edge() * s.closed.len()
}

/// What holds of a search from `start` to `end` in every state.
pub open spec fn is_sound(
    graph: Map<Position, Node>,
    start: Position,
    end: Position,
    s: SearchState,
) -> bool {
    &&& s.closed.finite()
    &&& s.closed.contains(start) || s == initial(start)
    &&& !s.parent.contains_key(start)
    &&& s.found <==> s.closed.contains(end)
    &&& open_is_sound(graph, start, s)
    &&& parents_are_sound(graph, s)
    &&& closed_is_sound(graph, start, s)
    &&& frontier_is_complete(graph, s)
    &&& costs_are_bounded(s)
}

/// An edge is as long as the distance between its ends, which is positive
/// and at most `max_edge()`.
pub proof fn lemma_edge_length(graph: Map<Position, Node>, p: Position, q: Position)
    ensures
        manhattan_distance(p, q) <= max_edge(),
        is_edge(graph, p, q) ==> p != q,
{
}

/// The state a search begins in is sound.
pub proof fn lemma_initial_sound(graph: Map<Position, Node>, start: Position, end: Position)
    ensures
        is_sound(graph, start, end, initial(start)),
{
    lemma_reachable_self(graph, start);
}

/// A search that is not over has a position to expand, at the front of its
/// open list.
pub proof fn lemma_current_is_front(s: SearchState)
    requires
        !finished(s),
    ensures
        is_front(s.open, current(s)),
{
    let some = choose|p: Position| s.open.contains_key(p);
    lemma_front_exists(s.open, some);
}

/// The route to a position that is about to be closed: the route to its
/// parent and the position itself, or the start alone.
proof fn lemma_route_to_current(
    graph: Map<Position, Node>,
    start: Position,
    end: Position,
    s: SearchState,
    cur: Position,
) -> (route: Seq<Position>)
    requires
        is_sound(graph, start, end, s),
        s.open.contains_key(cur),
    ensures
        is_chain(s.parent, route),
        route[0] == start,
        route.last() == cur,
        forall|i: int| 0 <= i < route.len() ==> #[trigger] route[i] == cur || s.closed.contains(route[i]),
{
    if cur == start {
        seq![start]
    } else {
        let before = s.parent[cur];
        assert(s.parent.contains_key(cur));
        assert(s.closed.contains(before));
        let to_parent = choose|route: Seq<Position>| closed_route(s, start, before, route);
        let route = to_parent.push(cur);
        assert forall|i: int| 0 <= i < route.len() - 1 implies #[trigger] parent_step(
            s.parent,
            route,
            i,
        ) by {
            if i < to_parent.len() - 1 {
                assert(parent_step(s.parent, to_parent, i));
            }
        }
        assert forall|i: int| 0 <= i < route.len() implies #[trigger] route[i] == cur
            || s.closed.contains(route[i]) by {
            if i < to_parent.len() {
                assert(route[i] == to_parent[i]);
            }
        }
        route
    }
}

/// A chain over positions whose parent links a step leaves alone is a chain
/// after the step.
proof fn lemma_chain_kept(
    old_parent: Map<Position, Position>,
    new_parent: Map<Position, Position>,
    route: Seq<Position>,
)
    requires
        is_chain(old_parent, route),
        forall|i: int|
            0 <= i < route.len() ==> (old_parent.contains_key(#[trigger] route[i])
                <==> new_parent.contains_key(route[i])) && (old_parent.contains_key(route[i])
                ==> old_parent[route[i]] == new_parent[route[i]]),
    ensures
        is_chain(new_parent, route),
{
    assert forall|i: int| 0 <= i < route.len() - 1 implies #[trigger] parent_step(
        new_parent,
        route,
        i,
    ) by {
        assert(parent_step(old_parent, route, i));
    }
}

/// Closing the end keeps the state sound.
proof fn lemma_arrive_sound(
    graph: Map<Position, Node>,
    start: Position,
    end: Position,
    s: SearchState,
)
    requires
        is_sound(graph, start, end, s),
        !finished(s),
        is_front(s.open, end),
    ensures
        is_sound(graph, start, end, arrive(s, end)),
{
    let t = arrive(s, end);
    let to_end = lemma_route_to_current(graph, start, end, s, end);
    assert(closed_route(t, start, end, to_end));
    assert forall|p: Position| #[trigger] t.closed.contains(p) implies reachable(graph, start, p)
        && exists|route: Seq<Position>| closed_route(t, start, p, route) by {
        if p != end {
            let route = choose|route: Seq<Position>| closed_route(s, start, p, route);
            assert(closed_route(t, start, p, route));
        }
    }
    assert(costs_are_bounded(t)) by {
        assert forall|p: Position| #[trigger] t.cost.contains_key(p) implies t.cost[p] <= max_edge()
            * t.closed.len() by {
            assert(s.cost[p] <= max_edge() * s.closed.len());
            assert(t.closed.len() == s.closed.len() + 1);
        }
    }
}

/// Expanding a position other than the end keeps the state sound.
proof fn lemma_expand_sound(
    graph: Map<Position, Node>,
    start: Position,
    end: Position,
    s: SearchState,
    cur: Position,
)
    requires
        is_sound(graph, start, end, s),
        !finished(s),
        is_front(s.open, cur),
        cur != end,
    ensures
        is_sound(graph, start, end, expand_over(s, end, cur, fresh_neighbors(graph, s, cur))),
{
    let fresh = fresh_neighbors(graph, s, cur);
    let t = expand_over(s, end, cur, fresh);
    assert(t.closed.len() == s.closed.len() + 1);
    assert(!fresh.contains(start)) by {
        lemma_edge_length(graph, cur, start);
    }
    assert(open_is_sound(graph, start, t)) by {
        assert forall|p: Position| #[trigger] t.open.contains_key(p) implies !t.closed.contains(p)
            && reachable(graph, start, p) && (p == start || t.parent.contains_key(p)) by {
            if fresh.contains(p) {
                lemma_edge_length(graph, cur, p);
                lemma_reachable_step(graph, start, cur, p);
            } else {
                assert(s.open.contains_key(p));
            }
        }
    }
    assert(parents_are_sound(graph, t)) by {
        assert forall|p: Position| #[trigger] t.parent.contains_key(p) implies t.closed.contains(
            t.parent[p],
        ) && is_edge(graph, t.parent[p], p) && t.cost.contains_key(p) by {
            if !fresh.contains(p) {
                assert(s.parent.contains_key(p));
            }
        }
    }
    let to_cur = lemma_route_to_current(graph, start, end, s, cur);
    assert(closed_route(t, start, cur, to_cur)) by {
        assert forall|i: int| 0 <= i < to_cur.len() implies !fresh.contains(#[trigger] to_cur[i]) by {
            lemma_edge_length(graph, cur, to_cur[i]);
        }
        lemma_chain_kept(s.parent, t.parent, to_cur);
    }
    assert(closed_is_sound(graph, start, t)) by {
        assert forall|p: Position| #[trigger] t.closed.contains(p) implies reachable(
            graph,
            start,
            p,
        ) && exists|route: Seq<Position>| closed_route(t, start, p, route) by {
            if p != cur {
                let route = choose|route: Seq<Position>| closed_route(s, start, p, route);
                lemma_chain_kept(s.parent, t.parent, route);
                assert(closed_route(t, start, p, route));
            }
        }
    }
    assert(frontier_is_complete(graph, t)) by {
        assert forall|p: Position, q: Position|
            t.closed.contains(p) && #[trigger] is_edge(graph, p, q) implies t.closed.contains(q)
            || t.open.contains_key(q) by {
            if p != cur {
                assert(s.closed.contains(q) || s.open.contains_key(q));
            }
        }
    }
    assert(costs_are_bounded(t)) by {
        assert forall|p: Position| #[trigger] t.cost.contains_key(p) implies t.cost[p] <= max_edge()
            * t.closed.len() by {
            if fresh.contains(p) {
                lemma_edge_length(graph, cur, p);
                if s.cost.contains_key(cur) {
                    assert(s.cost[cur] <= max_edge() * s.closed.len());
                }
            } else {
                assert(s.cost[p] <= max_edge() * s.closed.len());
            }
        }
    }
}

/// A step keeps the state sound.
pub proof fn lemma_step_sound(
    graph: Map<Position, Node>,
    start: Position,
    end: Position,
    s: SearchState,
)
    requires
        is_sound(graph, start, end, s),
    ensures
        is_sound(graph, start, end, step(graph, end, s)),
{
    if !finished(s) {
        lemma_current_is_front(s);
        if current(s) == end {
            lemma_arrive_sound(graph, start, end, s);
        } else {
            lemma_expand_sound(graph, start, end, s, current(s));
        }
    }
}

/// Every state of a search is sound.
pub proof fn lemma_run_sound(
    graph: Map<Position, Node>,
    start: Position,
    end: Position,
    n: nat,
)
    ensures
        is_sound(graph, start, end, run(graph, start, end, n)),
    decreases n,
{
    if n == 0 {
        lemma_initial_sound(graph, start, end);
    } else {
        lemma_run_sound(graph, start, end, (n - 1) as nat);
        lemma_step_sound(graph, start, end, run(graph, start, end, (n - 1) as nat));
    }
}

/// What holds of the result of a search.
///
/// Everything closed can be reached from the start. The end is closed if and
/// only if it can be reached. Where it is not, everything that can be
/// reached is closed. Where it is, the parent links record a route from the
/// start to the end, and the route is a walk along the edges of the graph.
pub proof fn lemma_search_result(
    graph: Map<Position, Node>,
    start: Position,
    end: Position,
    closed: Set<Position>,
    parent: Map<Position, Position>,
)
    requires
        is_search_result(graph, start, end, closed, parent),
    ensures
        closed.finite(),
        closed.contains(start),
        !parent.contains_key(start),
        forall|p: Position| #[trigger] closed.contains(p) ==> reachable(graph, start, p),
        forall|p: Position| #[trigger]
            parent.contains_key(p) ==> closed.contains(parent[p]) && is_edge(graph, parent[p], p),
        closed.contains(end) <==> reachable(graph, start, end),
        !closed.contains(end) ==> forall|p: Position| #[trigger]
            reachable(graph, start, p) ==> closed.contains(p),
        closed.contains(end) ==> exists|path: Seq<Position>|
            is_route(parent, start, end, path) && is_walk(graph, path),
{
    let n = choose|n: nat| result_after(graph, start, end, closed, parent, n);
    let s = run(graph, start, end, n);
    lemma_run_sound(graph, start, end, n);
    assert(s.open.contains_key(start) ==> !finished(s));
    assert(initial(start).open.contains_key(start));
    assert(closed.contains(start));
    if !s.found {
        assert forall|p: Position| #[trigger] reachable(graph, start, p) implies closed.contains(
            p,
        ) by {
            lemma_closed_set_holds_reachable(graph, start, p, closed);
        }
    } else {
        if start == end {
            let path = seq![start];
            assert(is_walk(graph, path));
            assert(is_route(parent, start, end, path) && is_walk(graph, path));
        } else {
            let path = choose|route: Seq<Position>| closed_route(s, start, end, route);
            assert(is_walk(graph, path)) by {
                assert forall|i: int| 0 <= i < path.len() - 1 implies #[trigger] walk_step(
                    graph,
                    path,
                    i,
                ) by {
                    assert(parent_step(parent, path, i));
                }
            }
            assert(is_route(parent, start, end, path) && is_walk(graph, path));
        }
    }
}

/// A search from a position to itself closes that position and nothing else,
/// and leaves no parent links. The route it records is the position alone.
pub proof fn lemma_search_to_itself(
    graph: Map<Position, Node>,
    start: Position,
    closed: Set<Position>,
    parent: Map<Position, Position>,
)
    requires
        is_search_result(graph, start, start, closed, parent),
    ensures
        closed == Set::<Position>::empty().insert(start),
        parent == Map::<Position, Position>::empty(),
        is_route(parent, start, start, seq![start]),
        forall|path: Seq<Position>| is_route(parent, start, start, path) ==> path == seq![start],
{
    let first = initial(start);
    assert(first.open.contains_key(start));
    lemma_current_is_front(first);
    assert(current(first) == start);
    let second = run(graph, start, start, 1);
    assert(run(graph, start, start, 0) == first);
    assert(second == arrive(first, start));
    assert(result_after(graph, start, start, second.closed, second.parent, 1));
    lemma_search_deterministic(graph, start, start, closed, parent, second.closed, second.parent);
    assert(second.closed =~= Set::<Position>::empty().insert(start));
    assert(second.parent =~= Map::<Position, Position>::empty());
}

/// Where the end cannot be reached from the start, a search neither closes
/// it nor gives it a parent, and the parent links record no route to it.
pub proof fn lemma_unreachable_end(
    graph: Map<Position, Node>,
    start: Position,
    end: Position,
    closed: Set<Position>,
    parent: Map<Position, Position>,
)
    requires
        is_search_result(graph, start, end, closed, parent),
        !reachable(graph, start, end),
    ensures
        !closed.contains(end),
        !parent.contains_key(end),
        forall|path: Seq<Position>| !is_route(parent, start, end, path),
{
    lemma_search_result(graph, start, end, closed, parent);
    lemma_reachable_self(graph, start);
    if parent.contains_key(end) {
        lemma_reachable_step(graph, start, parent[end], end);
    }
    assert forall|path: Seq<Position>| !is_route(parent, start, end, path) by {
        if is_route(parent, start, end, path) {
            assert(parent_step(parent, path, path.len() - 2));
        }
    }
}

} // verus!
