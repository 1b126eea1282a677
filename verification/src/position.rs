//! The 5' coordinate and the quality score of one alignment.

use crate::record::{AlignmentRecord, CigarOp, REVERSE_COMPLEMENTED};
use vstd::prelude::*;

verus! {

/// Why a record has no 5' coordinate.
#[derive(Debug, Clone, Copy, PartialEq, Eq, Structural)]
pub enum PositionError {
    /// The coordinate does not fit the 32 bits of a position.
    OutOfRange,
}

/// The number of bases that the clips at the head of a CIGAR cover.
pub open spec fn leading_clip(ops: Seq<CigarOp>) -> int
    decreases ops.len(),
{
    if ops.len() == 0 || !ops[0].kind.is_clip() {
        0
    } else {
        ops[0].len + leading_clip(ops.skip(1))
    }
}

/// The number of bases that the clips at the tail of a CIGAR cover.
pub open spec fn trailing_clip(ops: Seq<CigarOp>) -> int
    decreases ops.len(),
{
    if ops.len() == 0 || !ops.last().kind.is_clip() {
        0
    } else {
        ops.last().len + trailing_clip(ops.drop_last())
    }
}

/// The number of reference bases that a CIGAR covers.
pub open spec fn reference_span(ops: Seq<CigarOp>) -> int
    decreases ops.len(),
{
    if ops.len() == 0 {
        0
    } else {
        reference_span(ops.drop_last()) + if ops.last().kind.consumes_reference() {
            ops.last().len as int
        } else {
            0
        }
    }
}

/// The zero-based reference coordinate of the 5' end of a read, clipped
/// bases counted in: the start less the leading clips on the forward strand,
/// the end plus the trailing clips on the reverse strand, and -1 where the
/// read has no start.
pub open spec fn five_prime_position(start: Option<usize>, reverse: bool, ops: Seq<CigarOp>) -> int {
    match start {
        None => -1,
        Some(p) => if p == 0 {
            -1
        } else if !reverse {
            p - 1 - leading_clip(ops)
        } else {
            p - 1 + reference_span(ops) + trailing_clip(ops)
        },
    }
}

/// The sum of the base qualities that are at least 15.
pub open spec fn quality_sum(quals: Seq<u8>) -> nat
    decreases quals.len(),
{
    if quals.len() == 0 {
        0
    } else {
        quality_sum(quals.drop_last()) + if quals.last() >= 15 {
            quals.last() as nat
        } else {
            0
        }
    }
}

/// The score of a record: its quality sum as a 32-bit number.
pub open spec fn score_of(quals: Seq<u8>) -> u32 {
    (quality_sum(quals) % 0x1_0000_0000) as u32
}

/// The sum of two scores as a 32-bit number.
pub open spec fn combined_score(a: u32, b: u32) -> u32 {
    ((a + b) % 0x1_0000_0000) as u32
}

/// Sums the clips at the head of a CIGAR.
fn sum_leading_clip(ops: &Vec<CigarOp>) -> (sum: u128)
    ensures
        sum == leading_clip(ops@),
{
    let mut sum: u128 = 0;
    let mut i: usize = 0;
    proof {
        assert(ops@.skip(0) =~= ops@);
    }
    while i < ops.len() && ops[i].kind.is_clip()
        invariant
            0 <= i <= ops.len(),
            sum <= i * 0x1_0000_0000_0000_0000,
            leading_clip(ops@) == sum + leading_clip(ops@.skip(i as int)),
        decreases ops.len() - i,
    {
        proof {
            assert(ops@.skip(i as int).skip(1) =~= ops@.skip(i + 1));
            assert((i + 1) * 0x1_0000_0000_0000_0000 == i * 0x1_0000_0000_0000_0000
                + 0x1_0000_0000_0000_0000) by (nonlinear_arith);
            assert(i * 0x1_0000_0000_0000_0000 <= 0xffff_ffff_ffff_ffff
                * 0x1_0000_0000_0000_0000) by (nonlinear_arith)
                requires
                    i <= 0xffff_ffff_ffff_ffff,
            ;
        }
        sum = sum + ops[i].len as u128;
        i = i + 1;
    }
    sum
}

/// Sums the clips at the tail of a CIGAR.
fn sum_trailing_clip(ops: &Vec<CigarOp>) -> (sum: u128)
    ensures
        sum == trailing_clip(ops@),
{
    let mut sum: u128 = 0;
    let mut n: usize = ops.len();
    proof {
        assert(ops@.take(n as int) =~= ops@);
    }
    while n > 0 && ops[n - 1].kind.is_clip()
        invariant
            0 <= n <= ops.len(),
            sum <= (ops.len() - n) * 0x1_0000_0000_0000_0000,
            trailing_clip(ops@) == sum + trailing_clip(ops@.take(n as int)),
        decreases n,
    {
        proof {
            let d = ops.len() - n;
            assert(ops@.take(n as int).drop_last() =~= ops@.take(n - 1));
            assert((d + 1) * 0x1_0000_0000_0000_0000 == d * 0x1_0000_0000_0000_0000
                + 0x1_0000_0000_0000_0000) by (nonlinear_arith);
            assert(d * 0x1_0000_0000_0000_0000 <= 0xffff_ffff_ffff_ffff
                * 0x1_0000_0000_0000_0000) by (nonlinear_arith)
                requires
                    d <= 0xffff_ffff_ffff_ffff,
            ;
        }
        sum = sum + ops[n - 1].len as u128;
        n = n - 1;
    }
    sum
}

/// Sums the operations of a CIGAR that consume the reference.
fn sum_reference_span(ops: &Vec<CigarOp>) -> (sum: u128)
    ensures
        sum == reference_span(ops@),
{
    let mut sum: u128 = 0;
    let mut i: usize = 0;
    proof {
        assert(ops@.take(0) =~= Seq::<CigarOp>::empty());
    }
    while i < ops.len()
        invariant
            0 <= i <= ops.len(),
            sum <= i * 0x1_0000_0000_0000_0000,
            sum == reference_span(ops@.take(i as int)),
        decreases ops.len() - i,
    {
        proof {
            assert(ops@.take(i + 1).drop_last() =~= ops@.take(i as int));
            assert((i + 1) * 0x1_0000_0000_0000_0000 == i * 0x1_0000_0000_0000_0000
                + 0x1_0000_0000_0000_0000) by (nonlinear_arith);
            assert(i * 0x1_0000_0000_0000_0000 <= 0xffff_ffff_ffff_ffff
                * 0x1_0000_0000_0000_0000) by (nonlinear_arith)
                requires
                    i <= 0xffff_ffff_ffff_ffff,
            ;
        }
        if ops[i].kind.consumes_reference() {
            sum = sum + ops[i].len as u128;
        }
        i = i + 1;
    }
    proof {
        assert(ops@.take(ops.len() as int) =~= ops@);
    }
    sum
}

/// Computes the 5' coordinate of a record.
///
/// The coordinate is that of [`five_prime_position`]; a record whose
/// coordinate does not fit an `i32` is refused.
pub fn get_5p_pos(record: &AlignmentRecord) -> (r: Result<i32, PositionError>)
    ensures
        ({
            let p = five_prime_position(
                record.alignment_start,
                record.is_reverse(),
                record.cigar@,
            );
            if i32::MIN <= p <= i32::MAX {
                r == Ok::<i32, PositionError>(p as i32)
            } else {
                r == Err::<i32, PositionError>(PositionError::OutOfRange)
            }
        }),
{
    let start: u128 = match record.alignment_start {
        None => {
            return Ok(-1);
        },
        Some(p) => {
            if p == 0 {
                return Ok(-1);
            }
            (p - 1) as u128
        },
    };
    let limit: u128 = 0x8000_0000;
    if record.flags & REVERSE_COMPLEMENTED == 0 {
        let clipped = sum_leading_clip(&record.cigar);
        if clipped > start + limit || start >= clipped + limit {
            return Err(PositionError::OutOfRange);
        }
        if start >= clipped {
            Ok((start - clipped) as i32)
        } else {
            let below: u128 = clipped - start;
            Ok((0 - (below as i64)) as i32)
        }
    } else {
        let span = sum_reference_span(&record.cigar);
        let clipped = sum_trailing_clip(&record.cigar);
        if start >= limit || span >= limit || clipped >= limit {
            return Err(PositionError::OutOfRange);
        }
        let end: u128 = start + span + clipped;
        if end >= limit {
            return Err(PositionError::OutOfRange);
        }
        Ok(end as i32)
    }
}

/// Computes the score of a record: the sum of its base qualities that are at
/// least 15, as a 32-bit number.
pub fn get_score(record: &AlignmentRecord) -> (score: u32)
    ensures
        score == score_of(record.quality_scores@),
{
    let quals = &record.quality_scores;
    let mut sum: u128 = 0;
    let mut i: usize = 0;
    proof {
        assert(quals@.take(0) =~= Seq::<u8>::empty());
    }
    while i < quals.len()
        invariant
            0 <= i <= quals.len(),
            sum <= i * 255,
            sum == quality_sum(quals@.take(i as int)),
        decreases quals.len() - i,
    {
        proof {
            assert(quals@.take(i + 1).drop_last() =~= quals@.take(i as int));
        }
        let q = quals[i];
        if q >= 15 {
            sum = sum + q as u128;
        }
        i = i + 1;
    }
    proof {
        assert(quals@.take(quals.len() as int) =~= quals@);
    }
    (sum % 0x1_0000_0000) as u32
}

/// Adds two scores as 32-bit numbers.
pub fn add_scores(a: u32, b: u32) -> (sum: u32)
    ensures
        sum == combined_score(a, b),
{
    ((a as u64 + b as u64) % 0x1_0000_0000) as u32
}

} // verus!
