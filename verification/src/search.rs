//! The search engine: a best-first search over the node graph.

use crate::frontier::{
    arrive, cost_of, current, expand_over, finished, fresh_neighbors, initial, is_search_result,
    priority, result_after, run, tentative_cost, SearchState,
};
use crate::graph::{is_edge, is_walk, reachable, Node, NodeGraph};
use crate::position::{manhattan, position_count, same_position, Position};
use crate::queue::{lemma_front_unique, OpenList};
use crate::route::is_route;
use crate::soundness::{
    lemma_current_is_front, lemma_edge_length, lemma_run_sound, lemma_search_result, max_edge,
};
use crate::table::{PositionMap, PositionSet};
use vstd::prelude::*;

verus! {

/// The positions that a search has expanded.
pub type ClosedSet = PositionSet;

/// The position from which each discovered position was last reached.
pub type ParentMap = PositionMap<Position>;

/// The recorded costs are the costs of the state.
pub open spec fn costs_agree(recorded: Map<Position, u64>, costs: Map<Position, nat>) -> bool {
    &&& forall|p: Position| recorded.contains_key(p) <==> costs.contains_key(p)
    &&& forall|p: Position| #[trigger] recorded.contains_key(p) ==> recorded[p] as nat == costs[p]
}

/// Those of the positions `ends` that the expansion of `cur` queues.
pub open spec fn fresh_among(ends: Seq<Position>, s: SearchState, cur: Position) -> Set<Position> {
    Set::new(|p: Position| ends.contains(p) && !s.closed.contains(p) && p != cur)
}

/// One more end adds itself to the fresh positions if it is neither closed
/// nor the position that is expanded.
proof fn lemma_fresh_among_push(ends: Seq<Position>, s: SearchState, cur: Position, next: Position)
    ensures
        fresh_among(ends.push(next), s, cur) == if !s.closed.contains(next) && next != cur {
            fresh_among(ends, s, cur).insert(next)
        } else {
            fresh_among(ends, s, cur)
        },
{
    let longer = ends.push(next);
    assert forall|p: Position| longer.contains(p) <==> ends.contains(p) || p == next by {
        if ends.contains(p) {
            let i = choose|i: int| 0 <= i < ends.len() && ends[i] == p;
            assert(longer[i] == p);
        }
        if p == next {
            assert(longer[ends.len() as int] == p);
        }
    }
    if !s.closed.contains(next) && next != cur {
        assert(fresh_among(longer, s, cur) =~= fresh_among(ends, s, cur).insert(next));
    } else {
        assert(fresh_among(longer, s, cur) =~= fresh_among(ends, s, cur));
    }
}

/// Reaches the neighbours of `cur` over it: each one that is not closed gets
/// its cost and its parent recorded and is queued at its priority.
fn reach_neighbors(
    open: &mut OpenList,
    closed: &PositionSet,
    cost: &mut PositionMap<u64>,
    parent: &mut PositionMap<Position>,
    neighbors: &Vec<Position>,
    cur: Position,
    base: u64,
    end: Position,
    Ghost(graph): Ghost<Map<Position, Node>>,
    Ghost(s): Ghost<SearchState>,
)
    requires
        old(open).well_formed(),
        old(open)@ == s.open.remove(cur),
        closed@ == s.closed.insert(cur),
        costs_agree(old(cost)@, s.cost),
        old(parent)@ == s.parent,
        base == cost_of(s, cur),
        base <= max_edge() * position_count(),
        forall|p: Position| neighbors@.contains(p) <==> is_edge(graph, cur, p),
    ensures
        final(open).well_formed(),
        final(open)@ == expand_over(s, end, cur, fresh_neighbors(graph, s, cur)).open,
        costs_agree(final(cost)@, expand_over(s, end, cur, fresh_neighbors(graph, s, cur)).cost),
        final(parent)@ == expand_over(s, end, cur, fresh_neighbors(graph, s, cur)).parent,
{
    let mut i: usize = 0;
    assert(neighbors@.take(0) =~= Seq::<Position>::empty());
    assert(fresh_among(neighbors@.take(0), s, cur) =~= Set::<Position>::empty());
    assert(open@ =~= expand_over(s, end, cur, Set::<Position>::empty()).open);
    assert(parent@ =~= expand_over(s, end, cur, Set::<Position>::empty()).parent);
    while i < neighbors.len()
        invariant
            i <= neighbors@.len(),
            open.well_formed(),
            closed@ == s.closed.insert(cur),
            base == cost_of(s, cur),
            base <= max_edge() * position_count(),
            open@ == expand_over(s, end, cur, fresh_among(neighbors@.take(i as int), s, cur)).open,
            costs_agree(
                cost@,
                expand_over(s, end, cur, fresh_among(neighbors@.take(i as int), s, cur)).cost,
            ),
            parent@ == expand_over(
                s,
                end,
                cur,
                fresh_among(neighbors@.take(i as int), s, cur),
            ).parent,
        decreases neighbors@.len() - i,
    {
        let next: Position = neighbors[i];
        let ghost seen = neighbors@.take(i as int);
        let ghost before = expand_over(s, end, cur, fresh_among(seen, s, cur));
        proof {
            assert(neighbors@.take(i + 1) =~= seen.push(next));
            lemma_fresh_among_push(seen, s, cur, next);
            lemma_edge_length(graph, cur, next);
            lemma_edge_length(graph, next, end);
        }
        let ghost after = expand_over(s, end, cur, fresh_among(seen.push(next), s, cur));
        if !closed.contains(next) {
            let reached: u64 = base + manhattan(cur, next) as u64;
            let left: u64 = manhattan(next, end) as u64;
            let rank: u64 = if reached <= left {
                reached
            } else {
                left
            };
            assert(reached == tentative_cost(s, cur, next));
            assert(rank == priority(tentative_cost(s, cur, next), next, end));
            cost.insert(next, reached);
            parent.insert(next, cur);
            open.push(next, rank);
            assert(open@ =~= after.open);
            assert(parent@ =~= after.parent);
            assert(costs_agree(cost@, after.cost));
        } else {
            assert(after == before);
        }
        i = i + 1;
    }
    proof {
        assert(neighbors@.take(neighbors@.len() as int) =~= neighbors@);
        assert(fresh_among(neighbors@, s, cur) =~= fresh_neighbors(graph, s, cur)) by {
            assert forall|p: Position|
                fresh_among(neighbors@, s, cur).contains(p) <==> fresh_neighbors(
                    graph,
                    s,
                    cur,
                ).contains(p) by {
                lemma_edge_length(graph, cur, p);
            }
        }
    }
}

/// Searches the graph from `start` for `end`, best-first.
///
/// The open list begins with `start` alone. While it is not empty, the
/// position at its front is taken out and closed. If that is `end`, the
/// search is over. Otherwise each neighbour that is not closed is reached:
/// its cost becomes the cost of the closed position and the length of the
/// edge, its parent becomes the closed position, and it is queued at the
/// lesser of its cost and its distance to `end`, in place of what was
/// recorded and queued for it before. Among entries of equal priority the
/// one with the least column, then the least row, is at the front.
///
/// Returns the closed set and the parent links. The end is in the closed set
/// exactly if it can be reached from the start, and then the parent links
/// record a route to it; the route need not be a shortest one.
pub fn search(graph: &NodeGraph, start: Position, end: Position) -> (result: (ClosedSet, ParentMap))
    ensures
        is_search_result(graph@, start, end, result.0@, result.1@),
        result.0@.contains(start),
        result.0@.contains(end) <==> reachable(graph@, start, end),
        forall|p: Position| #[trigger] result.0@.contains(p) ==> reachable(graph@, start, p),
        !result.0@.contains(end) ==> forall|p: Position| #[trigger]
            reachable(graph@, start, p) ==> result.0@.contains(p),
        result.0@.contains(end) ==> exists|path: Seq<Position>|
            is_route(result.1@, start, end, path) && is_walk(graph@, path),
        start == end ==> result.0@ == Set::<Position>::empty().insert(start) && result.1@
            == Map::<Position, Position>::empty(),
{
    let mut open: OpenList = OpenList::new();
    open.push(start, 0);
    let mut closed: PositionSet = PositionSet::new();
    let mut cost: PositionMap<u64> = PositionMap::new();
    let mut parent: PositionMap<Position> = PositionMap::new();
    let mut done: bool = false;
    let ghost mut steps: nat = 0;
    let ghost mut s: SearchState = initial(start);
    assert(open@ =~= s.open);
    while !done
        invariant
            open.well_formed(),
            s == run(graph@, start, end, steps),
            open@ == s.open,
            closed@ == s.closed,
            parent@ == s.parent,
            costs_agree(cost@, s.cost),
            done ==> finished(s),
            !done ==> !s.found,
            start == end ==> steps == (if done {
                1nat
            } else {
                0nat
            }),
        decreases
                (if done {
                    0int
                } else {
                    1int
                }),
                position_count() - closed@.len(),
    {
        proof {
            lemma_run_sound(graph@, start, end, steps);
            closed.lemma_finite();
        }
        match open.pop() {
            None => {
                done = true;
            },
            Some((cur, _)) => {
                proof {
                    lemma_current_is_front(s);
                    lemma_front_unique(s.open, cur, current(s));
                    assert(steps == 0 ==> cur == start);
                }
                let base: u64 = match cost.get(cur) {
                    Some(c) => *c,
                    None => 0,
                };
                assert(base <= max_edge() * position_count()) by (nonlinear_arith)
                    requires
                        base <= max_edge() * s.closed.len(),
                        s.closed.len() <= position_count(),
                ;
                closed.insert(cur);
                proof {
                    closed.lemma_finite();
                }
                if same_position(cur, end) {
                    done = true;
                    proof {
                        s = arrive(s, end);
                        steps = steps + 1;
                    }
                } else {
                    let neighbors: Vec<Position> = match graph.get(cur) {
                        Some(node) => node.get_neighbor_positions(cur.0, cur.1),
                        None => Vec::new(),
                    };
                    proof {
                        if graph@.contains_key(cur) {
                            graph@[cur].lemma_neighbors(cur);
                        }
                    }
                    reach_neighbors(
                        &mut open,
                        &closed,
                        &mut cost,
                        &mut parent,
                        &neighbors,
                        cur,
                        base,
                        end,
                        Ghost(graph@),
                        Ghost(s),
                    );
                    proof {
                        s = expand_over(s, end, cur, fresh_neighbors(graph@, s, cur));
                        steps = steps + 1;
                    }
                }
            },
        }
    }
    proof {
        assert(result_after(graph@, start, end, closed@, parent@, steps));
        lemma_search_result(graph@, start, end, closed@, parent@);
        if start == end {
            assert(run(graph@, start, end, 0) == initial(start));
            assert(initial(start).open.contains_key(start));
            lemma_current_is_front(initial(start));
            assert(closed@ =~= Set::<Position>::empty().insert(start));
            assert(parent@ =~= Map::<Position, Position>::empty());
        }
    }
    (closed, parent)
}

} // verus!
