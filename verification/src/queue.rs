//! The open list of the search: a priority queue that hands out the entry
//! with the least rank first.
//!
//! The queue itself comes from the `priority-queue` crate. Each position is
//! held at most once; pushing a position that is already queued replaces its
//! rank. A rank is the pair of a priority and the position it belongs to, so
//! no two entries ever have the same rank and the next entry to leave is
//! determined by what the queue holds.

use crate::position::Position;
use priority_queue::PriorityQueue;
use std::cmp::Reverse;
use std::hash::Hash;
use vstd::prelude::*;

verus! {

/// What an entry is ordered by: the priority, then the column and the row of
/// the position it belongs to.
pub type Rank = (u64, u16, u16);

/// The priority queue of the `priority-queue` crate, carried as it is.
#[verifier::external_type_specification]
#[verifier::external_body]
#[verifier::reject_recursive_types(I)]
#[verifier::reject_recursive_types(P)]
#[verifier::reject_recursive_types(H)]
pub struct ExPriorityQueue<I: Hash + Eq, P: Ord, H>(PriorityQueue<I, P, H>);

/// `std::cmp::Reverse`, which orders its content the other way round.
#[verifier::external_type_specification]
#[verifier::external_body]
#[verifier::reject_recursive_types(T)]
pub struct ExReverse<T>(Reverse<T>);

/// The queue behind the open list: positions, ordered by their ranks in
/// reverse, so that the least rank is the greatest priority.
pub type RankQueue = PriorityQueue<Position, Reverse<Rank>>;

/// The entries of a queue: each queued position with its rank.
pub uninterp spec fn queue_entries(q: RankQueue) -> Map<Position, Rank>;

/// The entries of a queue that holds nothing.
pub open spec fn no_entries() -> Map<Position, Rank> {
    Map::empty()
}

/// Lexicographic order on ranks, as `Ord` has it for tuples.
pub open spec fn rank_le(a: Rank, b: Rank) -> bool {
    a.0 < b.0 || (a.0 == b.0 && (a.1 < b.1 || (a.1 == b.1 && a.2 <= b.2)))
}

/// `PriorityQueue::new`: a queue without entries.
#[verifier::external_body]
fn queue_new() -> (q: RankQueue)
    ensures
        queue_entries(q) == no_entries(),
{
    PriorityQueue::new()
}

/// `PriorityQueue::push`: the item is queued with the given rank; if it was
/// queued before, the new rank takes the place of the old one. Nothing else
/// changes.
#[verifier::external_body]
fn queue_push(q: &mut RankQueue, item: Position, rank: Rank)
    ensures
        queue_entries(*final(q)) == queue_entries(*old(q)).insert(item, rank),
{
    q.push(item, Reverse(rank));
}

/// `PriorityQueue::pop`: nothing comes out of a queue without entries, which
/// stays as it is. Otherwise an entry leaves whose priority no other entry
/// exceeds; priorities are ranks in reverse, so no other rank is below the
/// one that leaves. Which one leaves among several of equal rank is open.
#[verifier::external_body]
fn queue_pop(q: &mut RankQueue) -> (r: Option<(Position, Rank)>)
    ensures
        match r {
            None => queue_entries(*old(q)).dom() == Set::<Position>::empty() && queue_entries(
                *final(q),
            ) == queue_entries(*old(q)),
            Some((item, rank)) => {
                &&& queue_entries(*old(q)).contains_key(item)
                &&& queue_entries(*old(q))[item] == rank
                &&& forall|other: Position| #[trigger]
                    queue_entries(*old(q)).contains_key(other) ==> rank_le(
                        rank,
                        queue_entries(*old(q))[other],
                    )
                &&& queue_entries(*final(q)) == queue_entries(*old(q)).remove(item)
            },
        },
{
    q.pop().map(|(item, Reverse(rank))| (item, rank))
}

/// The entry `a` at the priority `pa` leaves before the entry `b` at the
/// priority `pb`, or is the same entry: its priority is less, or the
/// priorities are equal and its position is not greater by column, then row.
pub open spec fn leaves_before(pa: nat, a: Position, pb: nat, b: Position) -> bool {
    pa < pb || (pa == pb && (a.0 < b.0 || (a.0 == b.0 && a.1 <= b.1)))
}

/// `item` is at the front of `entries`: it is queued, and it leaves before
/// every other entry.
pub open spec fn is_front(entries: Map<Position, nat>, item: Position) -> bool {
    &&& entries.contains_key(item)
    &&& forall|other: Position| #[trigger]
        entries.contains_key(other) ==> leaves_before(entries[item], item, entries[other], other)
}

/// At most one entry is at the front.
pub proof fn lemma_front_unique(entries: Map<Position, nat>, a: Position, b: Position)
    requires
        is_front(entries, a),
        is_front(entries, b),
    ensures
        a == b,
{
}

/// Where anything is queued, some entry is at the front.
pub proof fn lemma_front_exists(entries: Map<Position, nat>, item: Position) -> (front: Position)
    requires
        entries.contains_key(item),
    ensures
        is_front(entries, front),
    decreases entries[item], item.0, item.1,
{
    if is_front(entries, item) {
        item
    } else {
        let other = choose|other: Position|
            entries.contains_key(other) && !leaves_before(
                entries[item],
                item,
                entries[other],
                other,
            );
        lemma_front_exists(entries, other)
    }
}

/// The open list: positions waiting to be expanded, each with a priority.
pub struct OpenList {
    queue: RankQueue,
}

impl View for OpenList {
    type V = Map<Position, nat>;

    /// The queued positions, each with its priority.
    closed spec fn view(&self) -> Map<Position, nat> {
        Map::new(
            |p: Position| queue_entries(self.queue).contains_key(p),
            |p: Position| queue_entries(self.queue)[p].0 as nat,
        )
    }
}

impl OpenList {
    /// Every entry's rank names the position it is queued under.
    pub closed spec fn well_formed(&self) -> bool {
        forall|p: Position| #[trigger]
            queue_entries(self.queue).contains_key(p) ==> queue_entries(self.queue)[p].1 == p.0
                && queue_entries(self.queue)[p].2 == p.1
    }

    /// An open list without entries.
    pub fn new() -> (list: OpenList)
        ensures
            list.well_formed(),
            list@ == Map::<Position, nat>::empty(),
    {
        let list = OpenList { queue: queue_new() };
        assert(list@ =~= Map::<Position, nat>::empty());
        list
    }

    /// Queues `item` at `priority`, replacing the priority it was queued at
    /// before, if any.
    pub fn push(&mut self, item: Position, priority: u64)
        requires
            old(self).well_formed(),
        ensures
            final(self).well_formed(),
            final(self)@ == old(self)@.insert(item, priority as nat),
    {
        queue_push(&mut self.queue, item, (priority, item.0, item.1));
        assert(self@ =~= old(self)@.insert(item, priority as nat));
    }

    /// Takes out the entry at the front: the one with the least priority and,
    /// among those, the least position by column and then row. `None` when
    /// nothing is queued.
    pub fn pop(&mut self) -> (r: Option<(Position, u64)>)
        requires
            old(self).well_formed(),
        ensures
            final(self).well_formed(),
            match r {
                None => old(self)@ == Map::<Position, nat>::empty() && final(self)@ == old(self)@,
                Some((item, priority)) => {
                    &&& is_front(old(self)@, item)
                    &&& old(self)@[item] == priority
                    &&& final(self)@ == old(self)@.remove(item)
                },
            },
    {
        let popped = queue_pop(&mut self.queue);
        match popped {
            None => {
                assert(self@ =~= old(self)@);
                assert(old(self)@ =~= Map::<Position, nat>::empty());
                None
            },
            Some((item, rank)) => {
                assert(self@ =~= old(self)@.remove(item));
                assert(is_front(old(self)@, item)) by {
                    assert forall|other: Position| #[trigger]
                        old(self)@.contains_key(other) implies leaves_before(
                        old(self)@[item],
                        item,
                        old(self)@[other],
                        other,
                    ) by {
                        assert(queue_entries(old(self).queue).contains_key(other));
                    }
                }
                Some((item, rank.0))
            },
        }
    }
}

} // verus!
