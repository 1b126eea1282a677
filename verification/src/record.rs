//! One alignment record, as the plain values that the pipeline reads.

use vstd::prelude::*;

verus! {

/// Flag bit: the read is one segment of a template that was sequenced in pairs.
pub const SEGMENTED: u16 = 0x1;

/// Flag bit: the read is not mapped.
pub const UNMAPPED: u16 = 0x4;

/// Flag bit: the mate of the read is not mapped.
pub const MATE_UNMAPPED: u16 = 0x8;

/// Flag bit: the read is mapped to the reverse strand.
pub const REVERSE_COMPLEMENTED: u16 = 0x10;

/// Flag bit: the alignment is a secondary one.
pub const SECONDARY: u16 = 0x100;

/// Flag bit: the alignment is a supplementary one.
pub const SUPPLEMENTARY: u16 = 0x800;

/// Whether `flags` has a bit of `mask` set.
pub open spec fn has_flag(flags: u16, mask: u16) -> bool {
    flags & mask != 0
}

/// Tests `flags` for a bit of `mask`.
pub fn flag_set(flags: u16, mask: u16) -> (r: bool)
    ensures
        r == has_flag(flags, mask),
{
    flags & mask != 0
}

/// Whether a record with these flags takes no part in the search for
/// duplicates: it is unmapped, secondary or supplementary.
pub open spec fn skipped(flags: u16) -> bool {
    has_flag(flags, UNMAPPED) || has_flag(flags, SECONDARY) || has_flag(flags, SUPPLEMENTARY)
}

/// Whether a record with these flags is a segment of a pair whose mate is
/// mapped too.
pub open spec fn mate_expected(flags: u16) -> bool {
    has_flag(flags, SEGMENTED) && !has_flag(flags, MATE_UNMAPPED)
}

/// Tells whether a record with these flags takes no part in the search for
/// duplicates.
pub fn is_skipped(flags: u16) -> (r: bool)
    ensures
        r == skipped(flags),
{
    flag_set(flags, UNMAPPED) || flag_set(flags, SECONDARY) || flag_set(flags, SUPPLEMENTARY)
}

/// Tells whether a record with these flags waits for its mate.
pub fn expects_mate(flags: u16) -> (r: bool)
    ensures
        r == mate_expected(flags),
{
    flag_set(flags, SEGMENTED) && !flag_set(flags, MATE_UNMAPPED)
}

/// The kind of a CIGAR operation.
#[derive(Debug, Clone, Copy, PartialEq, Eq, Structural)]
pub enum CigarKind {
    /// An alignment match (`M`).
    Match,
    /// An insertion into the reference (`I`).
    Insertion,
    /// A deletion from the reference (`D`).
    Deletion,
    /// A skipped region of the reference (`N`).
    Skip,
    /// A soft clip (`S`).
    SoftClip,
    /// A hard clip (`H`).
    HardClip,
    /// Padding (`P`).
    Pad,
    /// A sequence match (`=`).
    SequenceMatch,
    /// A sequence mismatch (`X`).
    SequenceMismatch,
}

impl CigarKind {
    /// Soft and hard clips.
    pub open spec fn is_clip_spec(self) -> bool {
        self == CigarKind::SoftClip || self == CigarKind::HardClip
    }

    /// The kinds that advance the alignment along the reference.
    pub open spec fn consumes_reference_spec(self) -> bool {
        self == CigarKind::Match || self == CigarKind::Deletion || self == CigarKind::Skip || self
            == CigarKind::SequenceMatch || self == CigarKind::SequenceMismatch
    }

    /// Whether the operation is a soft or a hard clip.
    #[verifier::when_used_as_spec(is_clip_spec)]
    pub fn is_clip(self) -> (r: bool)
        ensures
            r == self.is_clip_spec(),
    {
        match self {
            CigarKind::SoftClip | CigarKind::HardClip => true,
            _ => false,
        }
    }

    /// Whether the operation advances the alignment along the reference.
    #[verifier::when_used_as_spec(consumes_reference_spec)]
    pub fn consumes_reference(self) -> (r: bool)
        ensures
            r == self.consumes_reference_spec(),
    {
        match self {
            CigarKind::Match
            | CigarKind::Deletion
            | CigarKind::Skip
            | CigarKind::SequenceMatch
            | CigarKind::SequenceMismatch => true,
            _ => false,
        }
    }
}

/// One CIGAR operation: a kind and the number of bases that it covers.
#[derive(Debug, Clone, Copy, PartialEq, Eq, Structural)]
pub struct CigarOp {
    pub kind: CigarKind,
    pub len: usize,
}

/// What the pipeline reads of one alignment record.
#[derive(Debug)]
pub struct AlignmentRecord {
    /// The flag field.
    pub flags: u16,
    /// The index of the reference sequence, -1 where the record has none.
    pub ref_id: i32,
    /// The one-based leftmost mapped position, where the record has one.
    pub alignment_start: Option<usize>,
    /// The CIGAR operations, in their order.
    pub cigar: Vec<CigarOp>,
    /// The base qualities.
    pub quality_scores: Vec<u8>,
    /// The read name, where the record has one.
    pub name: Option<Vec<u8>>,
    /// The read group that the record names, where it names one.
    pub read_group: Option<Vec<u8>>,
}

impl AlignmentRecord {
    /// Unmapped, secondary and supplementary records take no part in the
    /// search for duplicates.
    pub open spec fn is_skipped(self) -> bool {
        skipped(self.flags)
    }

    /// A segment of a pair whose mate is mapped too.
    pub open spec fn expects_mate(self) -> bool {
        mate_expected(self.flags)
    }

    /// The strand of the record.
    pub open spec fn is_reverse(self) -> bool {
        has_flag(self.flags, REVERSE_COMPLEMENTED)
    }
}

} // verus!
