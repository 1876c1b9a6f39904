//! Hash tables keyed by position.
//!
//! A position is stored under its integer key, so that the tables rest on
//! what is known of `HashMap` with integer keys. Their views speak of
//! positions only.

use crate::position::{key, key_of, lemma_key_roundtrip, lemma_key_set_len, position_count, position_of, Position};
use std::collections::HashMap;
use vstd::prelude::*;

verus! {

broadcast use vstd::std_specs::hash::group_hash_axioms;

/// A finite map from positions to values.
pub struct PositionMap<V> {
    entries: HashMap<u32, V>,
}

impl<V> View for PositionMap<V> {
    type V = Map<Position, V>;

    closed spec fn view(&self) -> Map<Position, V> {
        Map::new(
            |p: Position| self.entries@.contains_key(key_of(p)),
            |p: Position| self.entries@[key_of(p)],
        )
    }
}

impl<V> PositionMap<V> {
    /// A map without entries.
    pub fn new() -> (m: Self)
        ensures
            m@ == Map::<Position, V>::empty(),
    {
        let m = PositionMap { entries: HashMap::new() };
        assert(m@ =~= Map::<Position, V>::empty());
        m
    }

    /// The map has as many entries as the table behind it.
    proof fn lemma_len(&self)
        ensures
            self@.dom().finite(),
            self@.dom().len() == self.entries@.dom().len(),
            self@.dom().len() <= position_count(),
    {
        let keys = self.entries@.dom();
        let f = |k: u32| position_of(k);
        assert(keys.map(f) =~= self@.dom()) by {
            assert forall|p: Position| keys.map(f).contains(p) == self@.dom().contains(p) by {
                if keys.map(f).contains(p) {
                    let k = choose|k: u32| keys.contains(k) && f(k) == p;
                    lemma_key_roundtrip(p, k);
                }
                if self@.dom().contains(p) {
                    lemma_key_roundtrip(p, key_of(p));
                    assert(keys.contains(key_of(p)) && f(key_of(p)) == p);
                }
            }
        }
        assert(vstd::relations::injective_on(f, keys)) by {
            assert forall|a: u32, b: u32|
                keys.contains(a) && keys.contains(b) && #[trigger] f(a) == #[trigger] f(
                    b,
                ) implies a == b by {
                lemma_key_roundtrip((0, 0), a);
                lemma_key_roundtrip((0, 0), b);
            }
        }
        vstd::set_lib::lemma_map_size(keys, self@.dom(), f);
        lemma_key_set_len(keys);
    }

    /// The map has finitely many entries, at most one for each position.
    pub proof fn lemma_finite(&self)
        ensures
            self@.dom().finite(),
            self@.dom().len() <= position_count(),
    {
        self.lemma_len();
    }

    /// Number of entries.
    pub fn len(&self) -> (n: usize)
        ensures
            self@.dom().finite(),
            n == self@.dom().len(),
            n <= position_count(),
    {
        proof {
            self.lemma_len();
        }
        self.entries.len()
    }

    /// Whether `p` has an entry.
    pub fn contains_key(&self, p: Position) -> (b: bool)
        ensures
            b == self@.contains_key(p),
    {
        let k: u32 = key(p);
        self.entries.contains_key(&k)
    }

    /// The value stored for `p`, if any.
    pub fn get(&self, p: Position) -> (r: Option<&V>)
        ensures
            match r {
                Some(v) => self@.contains_key(p) && *v == self@[p],
                None => !self@.contains_key(p),
            },
    {
        let k: u32 = key(p);
        self.entries.get(&k)
    }

    /// Stores `v` for `p`, in place of what was stored for `p` before.
    pub fn insert(&mut self, p: Position, v: V)
        ensures
            final(self)@ == old(self)@.insert(p, v),
    {
        let k: u32 = key(p);
        self.entries.insert(k, v);
        assert(self@ =~= old(self)@.insert(p, v)) by {
            assert forall|q: Position| q != p implies key_of(q) != k by {
                lemma_key_roundtrip(q, 0);
                lemma_key_roundtrip(p, 0);
            }
        }
    }
}

/// A finite set of positions.
pub struct PositionSet {
    members: PositionMap<()>,
}

impl View for PositionSet {
    type V = Set<Position>;

    closed spec fn view(&self) -> Set<Position> {
        self.members@.dom()
    }
}

impl PositionSet {
    /// The empty set.
    pub fn new() -> (s: Self)
        ensures
            s@ == Set::<Position>::empty(),
    {
        let s = PositionSet { members: PositionMap::new() };
        assert(s@ =~= Set::<Position>::empty());
        s
    }

    /// The set is finite and holds at most every position once.
    pub proof fn lemma_finite(&self)
        ensures
            self@.finite(),
            self@.len() <= position_count(),
    {
        self.members.lemma_finite();
    }

    /// Number of members.
    pub fn len(&self) -> (n: usize)
        ensures
            self@.finite(),
            n == self@.len(),
            n <= position_count(),
    {
        proof {
            self.members.lemma_finite();
        }
        self.members.len()
    }

    /// Whether `p` is a member.
    pub fn contains(&self, p: Position) -> (b: bool)
        ensures
            b == self@.contains(p),
    {
        self.members.contains_key(p)
    }

    /// Makes `p` a member.
    pub fn insert(&mut self, p: Position)
        ensures
            final(self)@ == old(self)@.insert(p),
    {
        self.members.insert(p, ());
        assert(self@ =~= old(self)@.insert(p));
    }
}

} // verus!
