//! Routes: reading the way from the start to the end out of the parent links
//! that a search leaves behind.

use crate::position::{manhattan, manhattan_distance, position_count, same_position, Position};
use crate::table::PositionMap;
use itertools::Itertools;
use vstd::prelude::*;

verus! {

/// `path[i]` is the recorded parent of `path[i + 1]`.
pub open spec fn parent_step(parent: Map<Position, Position>, path: Seq<Position>, i: int) -> bool {
    parent.contains_key(path[i + 1]) && parent[path[i + 1]] == path[i]
}

/// `path` follows the parent links all the way: its first position has no
/// parent, and each position is the parent of the next.
pub open spec fn is_chain(parent: Map<Position, Position>, path: Seq<Position>) -> bool {
    &&& path.len() >= 1
    &&& !parent.contains_key(path[0])
    &&& forall|i: int| 0 <= i < path.len() - 1 ==> #[trigger] parent_step(parent, path, i)
}

/// `path` is the route from `start` to `end` that the parent links record.
/// From a position to itself it is that position alone, whatever the links
/// say. Otherwise it is the chain of parents that ends on `end`, and it is a
/// route only if that chain begins at `start`.
pub open spec fn is_route(
    parent: Map<Position, Position>,
    start: Position,
    end: Position,
    path: Seq<Position>,
) -> bool {
    if start == end {
        path == seq![start]
    } else {
        is_chain(parent, path) && path[0] == start && path.last() == end
    }
}

/// `back[i + 1]` is the recorded parent of `back[i]`.
pub open spec fn back_step(parent: Map<Position, Position>, back: Seq<Position>, i: int) -> bool {
    parent.contains_key(back[i]) && parent[back[i]] == back[i + 1]
}

/// `back` follows the parent links backwards from its first position.
pub open spec fn is_back_walk(parent: Map<Position, Position>, back: Seq<Position>) -> bool {
    &&& back.len() >= 1
    &&& forall|i: int| 0 <= i < back.len() - 1 ==> #[trigger] back_step(parent, back, i)
}

/// A walk backwards from the end of a chain meets the positions of the chain
/// in reverse.
proof fn lemma_chain_aligned(
    parent: Map<Position, Position>,
    chain: Seq<Position>,
    back: Seq<Position>,
    j: int,
)
    requires
        is_chain(parent, chain),
        is_back_walk(parent, back),
        back[0] == chain.last(),
        0 <= j < back.len(),
        j < chain.len(),
    ensures
        back[j] == chain[chain.len() - 1 - j],
    decreases j,
{
    if j > 0 {
        lemma_chain_aligned(parent, chain, back, j - 1);
        assert(parent_step(parent, chain, chain.len() - 1 - j));
        assert(back_step(parent, back, j - 1));
    }
}

/// No position occurs twice in a chain.
pub proof fn lemma_chain_distinct(
    parent: Map<Position, Position>,
    chain: Seq<Position>,
    i: int,
    j: int,
)
    requires
        is_chain(parent, chain),
        0 <= i < j < chain.len(),
    ensures
        chain[i] != chain[j],
    decreases i,
{
    assert(parent_step(parent, chain, j - 1));
    if i > 0 {
        assert(parent_step(parent, chain, i - 1));
        lemma_chain_distinct(parent, chain, i - 1, j - 1);
    }
}

/// A chain has at most one position more than there are parent links.
pub proof fn lemma_chain_length(parent: Map<Position, Position>, chain: Seq<Position>)
    requires
        is_chain(parent, chain),
        parent.dom().finite(),
    ensures
        chain.len() - 1 <= parent.dom().len(),
{
    let tail = chain.subrange(1, chain.len() as int);
    assert forall|i: int, j: int| 0 <= i < tail.len() && 0 <= j < tail.len() && i != j implies tail[i]
        != tail[j] by {
        if i < j {
            lemma_chain_distinct(parent, chain, i + 1, j + 1);
        } else {
            lemma_chain_distinct(parent, chain, j + 1, i + 1);
        }
    }
    tail.unique_seq_to_set();
    assert(tail.to_set().subset_of(parent.dom())) by {
        assert forall|p: Position| tail.to_set().contains(p) implies parent.dom().contains(p) by {
            let i = choose|i: int| 0 <= i < tail.len() && tail[i] == p;
            assert(parent_step(parent, chain, i));
        }
    }
    vstd::set_lib::lemma_len_subset(tail.to_set(), parent.dom());
}

/// The parent links record one route at most.
pub proof fn lemma_route_unique(
    parent: Map<Position, Position>,
    start: Position,
    end: Position,
    a: Seq<Position>,
    b: Seq<Position>,
)
    requires
        is_route(parent, start, end, a),
        is_route(parent, start, end, b),
    ensures
        a == b,
{
    if start != end {
        let back = a.reverse();
        assert(is_back_walk(parent, back)) by {
            assert forall|i: int| 0 <= i < back.len() - 1 implies #[trigger] back_step(
                parent,
                back,
                i,
            ) by {
                assert(parent_step(parent, a, a.len() - 2 - i));
            }
        }
        if a.len() <= b.len() {
            lemma_chain_aligned(parent, b, back, a.len() - 1);
            if a.len() < b.len() {
                assert(parent_step(parent, b, b.len() - 1 - a.len()));
            }
        } else {
            lemma_chain_aligned(parent, b, back, b.len() - 1);
            assert(back_step(parent, back, b.len() - 1));
        }
        assert forall|i: int| 0 <= i < a.len() implies a[i] == b[i] by {
            lemma_chain_aligned(parent, b, back, a.len() - 1 - i);
        }
        assert(a =~= b);
    }
}

/// A walk backwards from `end` that comes to rest on a position other than
/// `start` shows that there is no route.
proof fn lemma_rest_elsewhere(
    parent: Map<Position, Position>,
    start: Position,
    end: Position,
    back: Seq<Position>,
)
    requires
        start != end,
        is_back_walk(parent, back),
        back[0] == end,
        !parent.contains_key(back.last()),
        back.last() != start,
    ensures
        forall|path: Seq<Position>| !is_route(parent, start, end, path),
{
    assert forall|path: Seq<Position>| !is_route(parent, start, end, path) by {
        if is_route(parent, start, end, path) {
            if back.len() <= path.len() {
                lemma_chain_aligned(parent, path, back, back.len() - 1);
                if back.len() < path.len() {
                    assert(parent_step(parent, path, path.len() - 1 - back.len()));
                }
            } else {
                lemma_chain_aligned(parent, path, back, path.len() - 1);
                assert(back_step(parent, back, path.len() - 1));
            }
        }
    }
}

/// A walk backwards from `end` that is still on a position with a parent
/// after more positions than there are parent links goes in a circle: there
/// is no route.
proof fn lemma_circle(
    parent: Map<Position, Position>,
    start: Position,
    end: Position,
    back: Seq<Position>,
)
    requires
        start != end,
        parent.dom().finite(),
        is_back_walk(parent, back),
        back[0] == end,
        parent.contains_key(back.last()),
        back.len() > parent.dom().len(),
    ensures
        forall|path: Seq<Position>| !is_route(parent, start, end, path),
{
    assert forall|path: Seq<Position>| !is_route(parent, start, end, path) by {
        if is_route(parent, start, end, path) {
            lemma_chain_length(parent, path);
            lemma_chain_aligned(parent, path, back, path.len() - 1);
            if path.len() < back.len() {
                assert(back_step(parent, back, path.len() - 1));
            }
        }
    }
}

/// Reads the route from `start` to `end` out of the parent links.
///
/// From a position to itself the route is that position alone. Otherwise the
/// links are followed backwards from `end` until a position without a parent
/// is met; if that position is `start`, the positions met are the route, from
/// `start` to `end`. `None` where the links do not lead from `end` back to
/// `start`: where `end` has no parent, where they come to rest elsewhere, and
/// where they go in a circle.
pub fn reconstruct(parent_map: &PositionMap<Position>, start: Position, end: Position) -> (route:
    Option<Vec<Position>>)
    ensures
        match route {
            Some(path) => is_route(parent_map@, start, end, path@) && path@.len()
                <= position_count() + 1,
            None => forall|path: Seq<Position>| !is_route(parent_map@, start, end, path),
        },
{
    if same_position(start, end) {
        let mut path: Vec<Position> = Vec::new();
        path.push(start);
        assert(path@ =~= seq![start]);
        return Some(path);
    }
    let ghost parent = parent_map@;
    let limit: usize = parent_map.len();
    let mut back: Vec<Position> = Vec::new();
    back.push(end);
    let mut cur: Position = end;
    let mut walking: bool = true;
    while walking
        invariant
            parent == parent_map@,
            parent.dom().finite(),
            limit == parent.dom().len(),
            start != end,
            is_back_walk(parent, back@),
            back@[0] == end,
            back@.last() == cur,
            back@.len() <= limit + 1,
            !walking ==> !parent.contains_key(cur),
        decreases
                (if walking {
                    1int
                } else {
                    0int
                }),
                limit + 1 - back@.len(),
    {
        match parent_map.get(cur) {
            None => {
                walking = false;
            },
            Some(before) => {
                if back.len() > limit {
                    proof {
                        lemma_circle(parent, start, end, back@);
                    }
                    return None;
                }
                let ghost walked = back@;
                back.push(*before);
                cur = *before;
                assert forall|i: int| 0 <= i < back@.len() - 1 implies #[trigger] back_step(
                    parent,
                    back@,
                    i,
                ) by {
                    if i < walked.len() - 1 {
                        assert(back_step(parent, walked, i));
                    }
                }
            },
        }
    }
    if !same_position(cur, start) {
        proof {
            lemma_rest_elsewhere(parent, start, end, back@);
        }
        return None;
    }
    let mut path: Vec<Position> = Vec::new();
    let mut i: usize = back.len();
    while i > 0
        invariant
            i <= back@.len(),
            path@.len() == back@.len() - i,
            forall|k: int| 0 <= k < path@.len() ==> path@[k] == back@[back@.len() - 1 - k],
        decreases i,
    {
        i = i - 1;
        path.push(back[i]);
    }
    assert(is_chain(parent, path@)) by {
        assert forall|k: int| 0 <= k < path@.len() - 1 implies #[trigger] parent_step(
            parent,
            path@,
            k,
        ) by {
            assert(back_step(parent, back@, back@.len() - 2 - k));
        }
    }
    Some(path)
}

/// Every position of `path` but the last, paired with the one that follows.
pub open spec fn steps_of(path: Seq<Position>) -> Seq<(Position, Position)> {
    Seq::new(
        if path.len() == 0 {
            0
        } else {
            (path.len() - 1) as nat
        },
        |i: int| (path[i], path[i + 1]),
    )
}

/// The length of `path` in cells: the sum of the distances from each position
/// to the next.
pub open spec fn route_length(path: Seq<Position>) -> int
    decreases path.len(),
{
    if path.len() <= 1 {
        0
    } else {
        route_length(path.drop_last()) + manhattan_distance(path[path.len() - 2], path.last())
    }
}

/// `Itertools::tuple_windows` on the positions of a path, taken in pairs:
/// the windows are the pairs of neighbouring positions, in the order of the
/// path; a path of fewer than two positions has none.
#[verifier::external_body]
fn adjacent_pairs(path: &Vec<Position>) -> (pairs: Vec<(Position, Position)>)
    ensures
        pairs@ == steps_of(path@),
{
    path.iter().copied().tuple_windows().collect()
}

/// The length of a path in cells: the sum of the distances from each
/// position to the next. A path may hold each position once and one more.
pub fn path_length(path: &Vec<Position>) -> (length: u64)
    requires
        path@.len() <= position_count() + 1,
    ensures
        length == route_length(path@),
{
    if path.len() == 0 {
        return 0;
    }
    let pairs: Vec<(Position, Position)> = adjacent_pairs(path);
    let mut length: u64 = 0;
    let mut i: usize = 0;
    assert(route_length(path@.take(1)) == 0);
    while i < pairs.len()
        invariant
            pairs@ == steps_of(path@),
            1 <= path@.len() <= position_count() + 1,
            i <= pairs@.len(),
            length == route_length(path@.take(i + 1)),
            length <= 0x1_FFFE * i,
        decreases pairs@.len() - i,
    {
        let step: (Position, Position) = pairs[i];
        proof {
            let longer = path@.take(i + 2);
            assert(longer.drop_last() =~= path@.take(i + 1));
            assert(longer[longer.len() - 2] == step.0 && longer.last() == step.1);
        }
        length = length + manhattan(step.0, step.1) as u64;
        i = i + 1;
    }
    assert(path@.take(path@.len() as int) =~= path@);
    length
}

} // verus!
