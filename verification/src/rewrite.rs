//! Rewriting the DUPLICATE bit in the serialized bytes of a record.

use crate::index_set::bitmap_members;
use crate::record::{flag_set, has_flag, SECONDARY, SUPPLEMENTARY};
use roaring::RoaringBitmap;
use vstd::prelude::*;

verus! {

/// The offset of the two flag bytes in the serialized bytes of a record.
pub const FLAG_OFFSET: usize = 12;

/// The flag bit that marks a record as a duplicate.
pub const DUPLICATE_FLAG: u16 = 0x400;

/// The flag field of serialized record bytes: little-endian, at the flag
/// offset.
pub open spec fn flag_field(data: Seq<u8>) -> u16
    recommends
        data.len() >= 14,
{
    (data[12] + 256 * data[13]) as u16
}

/// A flag value with the DUPLICATE bit set or cleared, its other bits kept.
pub open spec fn with_duplicate_bit(flag: u16, is_duplicate: bool) -> u16 {
    if is_duplicate {
        flag | 0x400
    } else {
        flag & !0x400u16
    }
}

/// Record bytes with the DUPLICATE bit of their flag field set or cleared.
/// Bytes too short to hold a flag field stay as they are.
pub open spec fn with_duplicate_flag(data: Seq<u8>, is_duplicate: bool) -> Seq<u8> {
    if data.len() < 14 {
        data
    } else {
        let flag = with_duplicate_bit(flag_field(data), is_duplicate);
        data.update(12, (flag % 256) as u8).update(13, (flag / 256) as u8)
    }
}

/// Setting or clearing the DUPLICATE bit touches no other bit, leaves the bit
/// as asked, and changes nothing when done twice.
pub proof fn lemma_duplicate_bit(flag: u16, is_duplicate: bool)
    ensures
        has_flag(with_duplicate_bit(flag, is_duplicate), DUPLICATE_FLAG) == is_duplicate,
        with_duplicate_bit(flag, is_duplicate) & !0x400u16 == flag & !0x400u16,
        with_duplicate_bit(with_duplicate_bit(flag, is_duplicate), is_duplicate)
            == with_duplicate_bit(flag, is_duplicate),
        with_duplicate_bit(flag, is_duplicate) % 256 == flag % 256,
        has_flag(flag, DUPLICATE_FLAG) == is_duplicate ==> with_duplicate_bit(flag, is_duplicate)
            == flag,
{
    assert((flag | 0x400) & 0x400 != 0) by (bit_vector);
    assert((flag & !0x400u16) & 0x400 == 0) by (bit_vector);
    assert((flag | 0x400) & !0x400u16 == flag & !0x400u16) by (bit_vector);
    assert((flag & !0x400u16) & !0x400u16 == flag & !0x400u16) by (bit_vector);
    assert((flag | 0x400) | 0x400 == flag | 0x400) by (bit_vector);
    assert((flag | 0x400) % 256 == flag % 256) by (bit_vector);
    assert((flag & !0x400u16) % 256 == flag % 256) by (bit_vector);
    assert(flag & 0x400 != 0 ==> flag | 0x400 == flag) by (bit_vector);
    assert(flag & 0x400 == 0 ==> flag & !0x400u16 == flag) by (bit_vector);
}

/// Sets or clears the DUPLICATE bit in serialized record bytes and returns the
/// new flag value; bytes too short to hold a flag field are left alone.
pub fn toggle_duplicate_flag(data: &mut [u8], is_duplicate: bool) -> (r: Option<u16>)
    ensures
        final(data)@ == with_duplicate_flag(old(data)@, is_duplicate),
        final(data)@.len() == old(data)@.len(),
        forall|i: int|
            0 <= i < old(data)@.len() && i != 13 ==> final(data)@[i] == old(data)@[i],
        old(data)@.len() < 14 ==> r.is_none(),
        old(data)@.len() >= 14 ==> r == Some(
            with_duplicate_bit(flag_field(old(data)@), is_duplicate),
        ) && flag_field(final(data)@) == with_duplicate_bit(flag_field(old(data)@), is_duplicate),
{
    if data.len() < FLAG_OFFSET + 2 {
        return None;
    }
    let flag: u16 = data[FLAG_OFFSET] as u16 + 256 * (data[FLAG_OFFSET + 1] as u16);
    let new_flag: u16 = if is_duplicate {
        flag | DUPLICATE_FLAG
    } else {
        flag & !DUPLICATE_FLAG
    };
    proof {
        lemma_duplicate_bit(flag, is_duplicate);
    }
    data[FLAG_OFFSET] = (new_flag % 256) as u8;
    data[FLAG_OFFSET + 1] = (new_flag / 256) as u8;
    Some(new_flag)
}

/// Secondary and supplementary records pass through as they are.
pub open spec fn passes_through(flags: u16) -> bool {
    has_flag(flags, SECONDARY) || has_flag(flags, SUPPLEMENTARY)
}

/// Whether the duplicate-index set holds the record index `idx`. An index
/// beyond the 32-bit domain of the set is in no set.
pub open spec fn index_in_set(idx: usize, members: Set<u32>) -> bool {
    idx <= u32::MAX && members.contains(idx as u32)
}

/// The bytes that go out for a record: those that came in, with the
/// DUPLICATE bit set where the record is a duplicate and cleared where it is
/// not, unless the record passes through.
pub open spec fn rewritten(data: Seq<u8>, flags: u16, is_duplicate: bool) -> Seq<u8> {
    if passes_through(flags) {
        data
    } else {
        with_duplicate_flag(data, is_duplicate)
    }
}

/// Whether a record leaves the output where duplicates are removed.
pub open spec fn is_dropped(flags: u16, is_duplicate: bool, remove_duplicates: bool) -> bool {
    remove_duplicates && is_duplicate && !passes_through(flags)
}

/// Rewriting changes at most the two flag bytes, leaves the DUPLICATE bit of
/// a record that does not pass through as the set says, and changes nothing
/// when done again on its own output.
pub proof fn lemma_rewritten(data: Seq<u8>, flags: u16, flags_again: u16, is_duplicate: bool)
    requires
        passes_through(flags) == passes_through(flags_again),
    ensures
        rewritten(data, flags, is_duplicate).len() == data.len(),
        forall|i: int|
            0 <= i < data.len() && i != 12 && i != 13 ==> rewritten(data, flags, is_duplicate)[i]
                == data[i],
        !passes_through(flags) && data.len() >= 14 ==> has_flag(
            flag_field(rewritten(data, flags, is_duplicate)),
            DUPLICATE_FLAG,
        ) == is_duplicate,
        rewritten(rewritten(data, flags, is_duplicate), flags_again, is_duplicate) == rewritten(
            data,
            flags,
            is_duplicate,
        ),
{
    if !passes_through(flags) && data.len() >= 14 {
        let flag = flag_field(data);
        let new_flag = with_duplicate_bit(flag, is_duplicate);
        let once = rewritten(data, flags, is_duplicate);
        lemma_duplicate_bit(flag, is_duplicate);
        lemma_duplicate_bit(new_flag, is_duplicate);
        assert(flag_field(once) == new_flag);
        assert(rewritten(once, flags_again, is_duplicate) =~= once);
    }
}

/// Tells whether the record index `idx` is in the duplicate-index set.
pub fn is_duplicate(idx: usize, dup_mask: &RoaringBitmap) -> (r: bool)
    ensures
        r == index_in_set(idx, bitmap_members(*dup_mask)),
{
    if idx > 0xffff_ffff {
        return false;
    }
    dup_mask.contains(idx as u32)
}

/// Prepares the serialized bytes of the record with index `idx` for
/// writing: a record that is neither secondary nor supplementary gets its
/// DUPLICATE bit from the duplicate-index set.
pub fn write_record_with_dup_flag(
    data: &mut [u8],
    flags: u16,
    idx: usize,
    dup_mask: &RoaringBitmap,
)
    ensures
        final(data)@ == rewritten(
            old(data)@,
            flags,
            index_in_set(idx, bitmap_members(*dup_mask)),
        ),
        final(data)@.len() == old(data)@.len(),
        forall|i: int|
            0 <= i < old(data)@.len() && i != 12 && i != 13 ==> final(data)@[i] == old(data)@[i],
        !passes_through(flags) && old(data)@.len() >= 14 ==> has_flag(
            flag_field(final(data)@),
            DUPLICATE_FLAG,
        ) == index_in_set(idx, bitmap_members(*dup_mask)),
{
    proof {
        lemma_rewritten(old(data)@, flags, flags, index_in_set(idx, bitmap_members(*dup_mask)));
    }
    if flag_set(flags, SECONDARY) || flag_set(flags, SUPPLEMENTARY) {
        return ;
    }
    let is_dup = is_duplicate(idx, dup_mask);
    toggle_duplicate_flag(data, is_dup);
}

/// Prepares the record with index `idx` for the output and tells whether it
/// is written at all: where duplicates are removed, a duplicate that does not
/// pass through is dropped, and its bytes stay as they are.
pub fn rewrite_record(
    data: &mut [u8],
    flags: u16,
    idx: usize,
    dup_mask: &RoaringBitmap,
    remove_duplicates: bool,
) -> (keep: bool)
    ensures
        keep == !is_dropped(
            flags,
            index_in_set(idx, bitmap_members(*dup_mask)),
            remove_duplicates,
        ),
        keep ==> final(data)@ == rewritten(
            old(data)@,
            flags,
            index_in_set(idx, bitmap_members(*dup_mask)),
        ),
        !keep ==> final(data)@ == old(data)@,
{
    if remove_duplicates && !(flag_set(flags, SECONDARY) || flag_set(flags, SUPPLEMENTARY))
        && is_duplicate(idx, dup_mask) {
        return false;
    }
    write_record_with_dup_flag(data, flags, idx, dup_mask);
    true
}

} // verus!
