//! Positions on the bitmap, the distance between them, and the integer key
//! under which a position is stored in hash tables.

use vstd::prelude::*;

verus! {

/// A cell of the bitmap: column first, then row.
pub type Position = (u16, u16);

/// Number of different positions, and of different keys.
pub const POSITION_COUNT: u64 = 0x1_0000_0000;

/// Number of different positions, and of different keys.
pub open spec fn position_count() -> int {
    POSITION_COUNT as int
}

/// Absolute difference of two integers.
pub open spec fn abs_diff(a: int, b: int) -> int {
    if a >= b {
        a - b
    } else {
        b - a
    }
}

/// Manhattan distance: the sum of the absolute coordinate differences.
pub open spec fn manhattan_distance(a: Position, b: Position) -> int {
    abs_diff(a.0 as int, b.0 as int) + abs_diff(a.1 as int, b.1 as int)
}

/// Whether two positions are the same.
pub fn same_position(a: Position, b: Position) -> (same: bool)
    ensures
        same == (a == b),
{
    a.0 == b.0 && a.1 == b.1
}

/// Manhattan distance between two positions.
pub fn manhattan(pos1: (u16, u16), pos2: (u16, u16)) -> (d: u32)
    ensures
        d == manhattan_distance(pos1, pos2),
{
    let dx: u16 = if pos1.0 >= pos2.0 {
        pos1.0 - pos2.0
    } else {
        pos2.0 - pos1.0
    };
    let dy: u16 = if pos1.1 >= pos2.1 {
        pos1.1 - pos2.1
    } else {
        pos2.1 - pos1.1
    };
    dx as u32 + dy as u32
}

/// The distance is symmetric, is zero exactly between a position and itself,
/// and obeys the triangle inequality.
pub proof fn lemma_manhattan_metric(a: Position, b: Position, c: Position)
    ensures
        manhattan_distance(a, b) == manhattan_distance(b, a),
        manhattan_distance(a, b) >= 0,
        manhattan_distance(a, b) == 0 <==> a == b,
        manhattan_distance(a, c) <= manhattan_distance(a, b) + manhattan_distance(b, c),
{
}

/// The key of a position: the column in the high half, the row in the low half.
pub open spec fn key_of(p: Position) -> u32 {
    (p.0 as int * 0x1_0000 + p.1 as int) as u32
}

/// The position that a key stands for.
pub open spec fn position_of(k: u32) -> Position {
    ((k as int / 0x1_0000) as u16, (k as int % 0x1_0000) as u16)
}

/// Keys and positions correspond one to one.
pub proof fn lemma_key_roundtrip(p: Position, k: u32)
    ensures
        position_of(key_of(p)) == p,
        key_of(position_of(k)) == k,
{
}

/// Different positions have different keys.
pub proof fn lemma_key_injective(p: Position, q: Position)
    ensures
        key_of(p) == key_of(q) <==> p == q,
{
    lemma_key_roundtrip(p, 0);
    lemma_key_roundtrip(q, 0);
}

/// Computes the key of a position.
pub fn key(p: Position) -> (k: u32)
    ensures
        k == key_of(p),
{
    p.0 as u32 * 0x1_0000 + p.1 as u32
}

/// A finite set of keys holds at most as many keys as there are positions.
pub proof fn lemma_key_set_len(s: Set<u32>)
    requires
        s.finite(),
    ensures
        s.len() <= position_count(),
{
    let f = |k: u32| k as int;
    let image = s.map(f);
    assert(vstd::relations::injective_on(f, s));
    vstd::set_lib::lemma_map_size(s, image, f);
    let all = vstd::set_lib::set_int_range(0, position_count());
    vstd::set_lib::lemma_int_range(0, position_count());
    assert(image.subset_of(all)) by {
        assert forall|i: int| image.contains(i) implies all.contains(i) by {
            let k = choose|k: u32| s.contains(k) && f(k) == i;
        }
    }
    vstd::set_lib::lemma_len_subset(image, all);
}

} // verus!
