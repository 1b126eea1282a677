//! The metadata record: one fixed-width sort key per fragment or resolved pair.

use crate::codec::{
    get_i32_le, get_u32_le, get_u64_le, i32_from_le, i32_le, lemma_le_bytes_of_value,
    lemma_le_round_trip, put_i32_le, put_u32_le, put_u64_le, u32_from_le, u32_le, u64_from_le,
    u64_le,
};
use std::cmp::Ordering;
use vstd::prelude::*;
use vstd::std_specs::cmp::PartialOrdSpecImpl;

verus! {

/// Why a byte buffer holds no metadata record at its head.
#[derive(Debug, Clone, Copy, PartialEq, Eq, Structural)]
pub enum DecodeError {
    /// The buffer ends inside a record.
    Truncated,
}

/// Position metadata of a fragment or of a resolved pair.
///
/// The fields stand in the order in which entries are compared.
#[derive(Debug, Clone, Copy, PartialEq, Eq, Ord, Structural)]
pub struct Metadata {
    pub lib_id: i32,
    pub ref_id1: i32,
    pub pos1: i32,
    pub rev1: u8,
    pub rev2: u8,
    pub ref_id2: i32,
    pub pos2: i32,
    pub score: u32,
    pub idx1: u64,
    pub idx2: u64,
    pub paired_end: u8,
}

impl Metadata {
    /// The entry of a single-end read or of a read whose mate is not mapped.
    pub open spec fn fragment(
        lib_id: i32,
        ref_id1: i32,
        pos1: i32,
        rev1: u8,
        score: u32,
        idx1: u64,
    ) -> Metadata {
        Metadata {
            lib_id,
            ref_id1,
            pos1,
            rev1,
            rev2: 0,
            ref_id2: -1i32,
            pos2: 0,
            score,
            idx1,
            idx2: 0,
            paired_end: 0,
        }
    }

    /// Builds the entry of a single-end read.
    pub fn new_se(lib_id: i32, ref_id1: i32, pos1: i32, rev1: u8, score: u32, idx1: u64) -> (m:
        Metadata)
        ensures
            m == Metadata::fragment(lib_id, ref_id1, pos1, rev1, score, idx1),
    {
        Metadata {
            lib_id,
            ref_id1,
            pos1,
            rev1,
            rev2: 0,
            ref_id2: -1,
            pos2: 0,
            score,
            idx1,
            idx2: 0,
            paired_end: 0,
        }
    }

    /// Builds the entry of a resolved pair, left end first.
    pub fn new_pe(
        lib_id: i32,
        ref_id1: i32,
        pos1: i32,
        rev1: u8,
        ref_id2: i32,
        pos2: i32,
        rev2: u8,
        score: u32,
        idx1: u64,
        idx2: u64,
    ) -> (m: Metadata)
        ensures
            m == (Metadata {
                lib_id,
                ref_id1,
                pos1,
                rev1,
                rev2,
                ref_id2,
                pos2,
                score,
                idx1,
                idx2,
                paired_end: 1,
            }),
    {
        Metadata {
            lib_id,
            ref_id1,
            pos1,
            rev1,
            rev2,
            ref_id2,
            pos2,
            score,
            idx1,
            idx2,
            paired_end: 1,
        }
    }

    /// The width of an encoded entry, in bytes.
    pub fn binary_size() -> (n: usize)
        ensures
            n == 43,
    {
        4 + 4 + 4 + 2 + 4 + 4 + 4 + 8 + 8 + 1
    }

    /// The 43 bytes of an entry: every field little-endian, in the order
    /// `lib_id`, `ref_id1`, `pos1`, `rev1`, `rev2`, `ref_id2`, `pos2`,
    /// `score`, `idx1`, `idx2`, `paired_end`.
    pub open spec fn encoding(self) -> Seq<u8> {
        i32_le(self.lib_id) + i32_le(self.ref_id1) + i32_le(self.pos1) + seq![self.rev1, self.rev2]
            + i32_le(self.ref_id2) + i32_le(self.pos2) + u32_le(self.score) + u64_le(self.idx1)
            + u64_le(self.idx2) + seq![self.paired_end]
    }

    /// The entry whose encoding stands at the head of `b`.
    pub open spec fn decoding(b: Seq<u8>) -> Metadata
        recommends
            b.len() >= 43,
    {
        Metadata {
            lib_id: i32_from_le(b),
            ref_id1: i32_from_le(b.skip(4)),
            pos1: i32_from_le(b.skip(8)),
            rev1: b[12],
            rev2: b[13],
            ref_id2: i32_from_le(b.skip(14)),
            pos2: i32_from_le(b.skip(18)),
            score: u32_from_le(b.skip(22)),
            idx1: u64_from_le(b.skip(26)),
            idx2: u64_from_le(b.skip(34)),
            paired_end: b[42],
        }
    }

    /// What reading one entry from the head of `b` gives: nothing where no
    /// byte is left, an error where the bytes that are left end inside a
    /// record.
    pub open spec fn read_result(b: Seq<u8>) -> Result<Option<Metadata>, DecodeError> {
        if b.len() == 0 {
            Ok(None)
        } else if b.len() < 43 {
            Err(DecodeError::Truncated)
        } else {
            Ok(Some(Metadata::decoding(b)))
        }
    }

    /// Appends the encoding of the entry to `w`.
    pub fn write_to(&self, w: &mut Vec<u8>)
        ensures
            final(w)@ == old(w)@ + self.encoding(),
    {
        put_i32_le(w, self.lib_id);
        put_i32_le(w, self.ref_id1);
        put_i32_le(w, self.pos1);
        w.push(self.rev1);
        w.push(self.rev2);
        put_i32_le(w, self.ref_id2);
        put_i32_le(w, self.pos2);
        put_u32_le(w, self.score);
        put_u64_le(w, self.idx1);
        put_u64_le(w, self.idx2);
        w.push(self.paired_end);
        assert(w@ =~= old(w)@ + self.encoding());
    }

    /// Reads the entry at the head of `buf`.
    ///
    /// An empty buffer is the end of the stream; a buffer that ends inside
    /// a record is an error.
    pub fn read_from(buf: &[u8]) -> (r: Result<Option<Metadata>, DecodeError>)
        ensures
            r == Metadata::read_result(buf@),
    {
        if buf.len() == 0 {
            return Ok(None);
        }
        if buf.len() < 43 {
            return Err(DecodeError::Truncated);
        }
        assert(buf@.skip(0) =~= buf@);
        Ok(
            Some(
                Metadata {
                    lib_id: get_i32_le(buf, 0),
                    ref_id1: get_i32_le(buf, 4),
                    pos1: get_i32_le(buf, 8),
                    rev1: buf[12],
                    rev2: buf[13],
                    ref_id2: get_i32_le(buf, 14),
                    pos2: get_i32_le(buf, 18),
                    score: get_u32_le(buf, 22),
                    idx1: get_u64_le(buf, 26),
                    idx2: get_u64_le(buf, 34),
                    paired_end: buf[42],
                },
            ),
        )
    }

    /// The coordinate that candidate duplicates share: library, reference,
    /// 5' position and strand of the left end.
    pub open spec fn group_key(self) -> (i32, i32, i32, u8) {
        (self.lib_id, self.ref_id1, self.pos1, self.rev1)
    }

    /// Reference, 5' position and strand of the right end.
    pub open spec fn mate_key(self) -> (i32, i32, u8) {
        (self.ref_id2, self.pos2, self.rev2)
    }

    /// The strict total order of entries: field by field, in the order of
    /// declaration.
    pub open spec fn before(self, other: Metadata) -> bool {
        if self.lib_id != other.lib_id {
            self.lib_id < other.lib_id
        } else if self.ref_id1 != other.ref_id1 {
            self.ref_id1 < other.ref_id1
        } else if self.pos1 != other.pos1 {
            self.pos1 < other.pos1
        } else if self.rev1 != other.rev1 {
            self.rev1 < other.rev1
        } else if self.rev2 != other.rev2 {
            self.rev2 < other.rev2
        } else if self.ref_id2 != other.ref_id2 {
            self.ref_id2 < other.ref_id2
        } else if self.pos2 != other.pos2 {
            self.pos2 < other.pos2
        } else if self.score != other.score {
            self.score < other.score
        } else if self.idx1 != other.idx1 {
            self.idx1 < other.idx1
        } else if self.idx2 != other.idx2 {
            self.idx2 < other.idx2
        } else {
            self.paired_end < other.paired_end
        }
    }

    /// `self` does not come after `other`.
    pub open spec fn not_after(self, other: Metadata) -> bool {
        self == other || self.before(other)
    }

    /// Whether `self` comes strictly before `other`.
    pub fn precedes(&self, other: &Metadata) -> (r: bool)
        ensures
            r == self.before(*other),
    {
        if self.lib_id != other.lib_id {
            self.lib_id < other.lib_id
        } else if self.ref_id1 != other.ref_id1 {
            self.ref_id1 < other.ref_id1
        } else if self.pos1 != other.pos1 {
            self.pos1 < other.pos1
        } else if self.rev1 != other.rev1 {
            self.rev1 < other.rev1
        } else if self.rev2 != other.rev2 {
            self.rev2 < other.rev2
        } else if self.ref_id2 != other.ref_id2 {
            self.ref_id2 < other.ref_id2
        } else if self.pos2 != other.pos2 {
            self.pos2 < other.pos2
        } else if self.score != other.score {
            self.score < other.score
        } else if self.idx1 != other.idx1 {
            self.idx1 < other.idx1
        } else if self.idx2 != other.idx2 {
            self.idx2 < other.idx2
        } else {
            self.paired_end < other.paired_end
        }
    }

    /// How `self` stands to `other` in the order of entries.
    pub open spec fn ordering(self, other: Metadata) -> Ordering {
        if self.before(other) {
            Ordering::Less
        } else if other.before(self) {
            Ordering::Greater
        } else {
            Ordering::Equal
        }
    }

    /// Compares two entries in the order of entries.
    pub fn compare(&self, other: &Metadata) -> (r: Ordering)
        ensures
            r == self.ordering(*other),
            r == Ordering::Equal <==> *self == *other,
    {
        if self.precedes(other) {
            Ordering::Less
        } else if other.precedes(self) {
            Ordering::Greater
        } else {
            Ordering::Equal
        }
    }

    /// Whether the two entries share their group key.
    pub fn same_group(&self, other: &Metadata) -> (r: bool)
        ensures
            r == (self.group_key() == other.group_key()),
    {
        self.lib_id == other.lib_id && self.ref_id1 == other.ref_id1 && self.pos1 == other.pos1
            && self.rev1 == other.rev1
    }
}

impl PartialOrd for Metadata {
    fn partial_cmp(&self, other: &Metadata) -> (r: Option<Ordering>) {
        Some(self.compare(other))
    }
}

impl PartialOrdSpecImpl for Metadata {
    open spec fn obeys_partial_cmp_spec() -> bool {
        true
    }

    open spec fn partial_cmp_spec(&self, other: &Metadata) -> Option<Ordering> {
        Some(self.ordering(*other))
    }
}

/// An entry is read back from its 43 bytes, whatever follows them.
pub proof fn lemma_decode_encode(m: Metadata, rest: Seq<u8>)
    ensures
        m.encoding().len() == 43,
        Metadata::decoding(m.encoding() + rest) == m,
        Metadata::read_result(m.encoding() + rest) == Ok::<_, DecodeError>(Some(m)),
{
    let t10 = seq![m.paired_end] + rest;
    let t9 = u64_le(m.idx2) + t10;
    let t8 = u64_le(m.idx1) + t9;
    let t7 = u32_le(m.score) + t8;
    let t6 = i32_le(m.pos2) + t7;
    let t5 = i32_le(m.ref_id2) + t6;
    let t4 = seq![m.rev1, m.rev2] + t5;
    let t3 = i32_le(m.pos1) + t4;
    let t2 = i32_le(m.ref_id1) + t3;
    let t1 = i32_le(m.lib_id) + t2;
    let b = m.encoding() + rest;
    lemma_le_round_trip(m.score, m.idx1, m.lib_id, t2);
    lemma_le_round_trip(m.score, m.idx2, m.ref_id1, t3);
    lemma_le_round_trip(m.score, m.idx1, m.pos1, t4);
    lemma_le_round_trip(m.score, m.idx1, m.ref_id2, t6);
    lemma_le_round_trip(m.score, m.idx1, m.pos2, t7);
    lemma_le_round_trip(m.score, m.idx1, m.pos2, t8);
    lemma_le_round_trip(m.score, m.idx1, m.pos2, t9);
    lemma_le_round_trip(m.score, m.idx2, m.pos2, t10);
    assert(b =~= t1);
    assert(b.skip(4) =~= t2);
    assert(b.skip(8) =~= t3);
    assert(b.skip(12) =~= t4);
    assert(b.skip(14) =~= t5);
    assert(b.skip(18) =~= t6);
    assert(b.skip(22) =~= t7);
    assert(b.skip(26) =~= t8);
    assert(b.skip(34) =~= t9);
    assert(b.skip(42) =~= t10);
    assert(b[12] == t4[0]);
    assert(b[13] == t4[1]);
    assert(b[42] == t10[0]);
}

/// The first 43 bytes of a buffer are the encoding of the entry read from it.
pub proof fn lemma_encode_decode(b: Seq<u8>)
    requires
        b.len() >= 43,
    ensures
        Metadata::decoding(b).encoding() == b.take(43),
{
    lemma_le_bytes_of_value(b);
    lemma_le_bytes_of_value(b.skip(4));
    lemma_le_bytes_of_value(b.skip(8));
    lemma_le_bytes_of_value(b.skip(14));
    lemma_le_bytes_of_value(b.skip(18));
    lemma_le_bytes_of_value(b.skip(22));
    lemma_le_bytes_of_value(b.skip(26));
    lemma_le_bytes_of_value(b.skip(34));
    assert(Metadata::decoding(b).encoding() =~= b.take(43));
}

/// The order is irreflexive, transitive and total.
pub proof fn lemma_order_is_strict_total(a: Metadata, b: Metadata, c: Metadata)
    ensures
        !a.before(a),
        a.before(b) && b.before(c) ==> a.before(c),
        a.before(b) || b.before(a) || a == b,
        !(a.before(b) && b.before(a)),
{
}

/// Entries are ordered by group key first: between two entries of one group
/// no entry of another group is sorted.
pub proof fn lemma_group_is_contiguous(a: Metadata, b: Metadata, c: Metadata)
    requires
        a.not_after(b),
        b.not_after(c),
        a.group_key() == c.group_key(),
    ensures
        b.group_key() == a.group_key(),
{
}

/// Within a group, entries are ordered by the coordinate of their right end
/// before their score: between two entries with one right end no entry with
/// another is sorted.
pub proof fn lemma_right_ends_are_contiguous(a: Metadata, b: Metadata, c: Metadata)
    requires
        a.not_after(b),
        b.not_after(c),
        a.group_key() == c.group_key(),
        a.mate_key() == c.mate_key(),
    ensures
        b.mate_key() == a.mate_key(),
{
}

} // verus!
