//! The set of coordinates that host the right end of a resolved pair.

use crate::codec::i32_bits;
use std::collections::HashSet;
use vstd::prelude::*;

verus! {

broadcast use vstd::std_specs::hash::group_hash_axioms;

/// A coordinate: library, reference, 5' position, strand.
pub type Coordinate = (i32, i32, i32, u8);

/// The integer that stands for a coordinate in the hash set: the four fields
/// side by side, the strand in the lowest byte.
pub open spec fn packed(c: Coordinate) -> u128 {
    (((i32_bits(c.0) * 0x1_0000_0000 + i32_bits(c.1)) * 0x1_0000_0000 + i32_bits(c.2)) * 256
        + c.3) as u128
}

/// Different coordinates are packed into different integers.
pub proof fn lemma_packed_is_injective(a: Coordinate, b: Coordinate)
    requires
        packed(a) == packed(b),
    ensures
        a == b,
{
    let a2 = (i32_bits(a.0) * 0x1_0000_0000 + i32_bits(a.1)) * 0x1_0000_0000 + i32_bits(a.2);
    let b2 = (i32_bits(b.0) * 0x1_0000_0000 + i32_bits(b.1)) * 0x1_0000_0000 + i32_bits(b.2);
    assert(a2 * 256 + a.3 == b2 * 256 + b.3);
    assert(a2 == b2 && a.3 == b.3);
    let a1 = i32_bits(a.0) * 0x1_0000_0000 + i32_bits(a.1);
    let b1 = i32_bits(b.0) * 0x1_0000_0000 + i32_bits(b.1);
    assert(a1 == b1 && i32_bits(a.2) == i32_bits(b.2));
    assert(i32_bits(a.0) == i32_bits(b.0) && i32_bits(a.1) == i32_bits(b.1));
}

fn bits_of(v: i32) -> (u: u128)
    ensures
        u == i32_bits(v),
{
    if v >= 0 {
        v as u128
    } else {
        (v + 0x7fff_ffff + 1) as u128 + 0x8000_0000
    }
}

fn pack(c: &Coordinate) -> (k: u128)
    ensures
        k == packed(*c),
{
    ((bits_of(c.0) * 0x1_0000_0000 + bits_of(c.1)) * 0x1_0000_0000 + bits_of(c.2)) * 256
        + c.3 as u128
}

/// A set of coordinates.
pub struct SecondEndSet {
    keys: HashSet<u128>,
}

impl View for SecondEndSet {
    type V = Set<Coordinate>;

    closed spec fn view(&self) -> Set<Coordinate> {
        Set::new(|c: Coordinate| self.keys@.contains(packed(c)))
    }
}

impl SecondEndSet {
    /// The empty set.
    pub fn new() -> (s: SecondEndSet)
        ensures
            s@ == Set::<Coordinate>::empty(),
    {
        let s = SecondEndSet { keys: HashSet::new() };
        assert(s@ =~= Set::<Coordinate>::empty());
        s
    }

    /// Adds a coordinate; tells whether it was absent before.
    pub fn insert(&mut self, c: Coordinate) -> (absent: bool)
        ensures
            final(self)@ == old(self)@.insert(c),
            absent == !old(self)@.contains(c),
    {
        let absent = self.keys.insert(pack(&c));
        proof {
            assert forall|d: Coordinate| #[trigger]
                self@.contains(d) == old(self)@.insert(c).contains(d) by {
                if packed(d) == packed(c) {
                    lemma_packed_is_injective(d, c);
                }
            }
            assert(self@ =~= old(self)@.insert(c));
        }
        absent
    }

    /// Whether the set holds the coordinate.
    pub fn contains(&self, c: &Coordinate) -> (present: bool)
        ensures
            present == self@.contains(*c),
    {
        let k = pack(c);
        self.keys.contains(&k)
    }
}

} // verus!
