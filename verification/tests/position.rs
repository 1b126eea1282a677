use rmduprs::position::{add_scores, get_5p_pos, get_score, PositionError};
use rmduprs::record::{expects_mate, flag_set, is_skipped, AlignmentRecord, CigarKind, CigarOp};

fn op(kind: CigarKind, len: usize) -> CigarOp {
    CigarOp { kind, len }
}

fn record(flags: u16, start: Option<usize>, cigar: Vec<CigarOp>, quals: Vec<u8>) -> AlignmentRecord {
    AlignmentRecord {
        flags,
        ref_id: 0,
        alignment_start: start,
        cigar,
        quality_scores: quals,
        name: None,
        read_group: None,
    }
}

#[test]
fn forward_read_subtracts_the_leading_clips() {
    let cigar = vec![
        op(CigarKind::HardClip, 2),
        op(CigarKind::SoftClip, 3),
        op(CigarKind::Match, 50),
        op(CigarKind::SoftClip, 7),
    ];
    // one-based start 101 is zero-based 100
    assert_eq!(get_5p_pos(&record(0, Some(101), cigar, vec![])), Ok(95));
}

#[test]
fn forward_read_without_clips_is_its_start() {
    let cigar = vec![op(CigarKind::Match, 50), op(CigarKind::SoftClip, 7)];
    assert_eq!(get_5p_pos(&record(0, Some(101), cigar, vec![])), Ok(100));
}

#[test]
fn forward_clips_may_reach_before_the_reference() {
    let cigar = vec![op(CigarKind::SoftClip, 10), op(CigarKind::Match, 50)];
    assert_eq!(get_5p_pos(&record(0, Some(4), cigar, vec![])), Ok(-7));
}

#[test]
fn reverse_read_adds_span_and_trailing_clips() {
    let cigar = vec![
        op(CigarKind::SoftClip, 4),
        op(CigarKind::Match, 10),
        op(CigarKind::Insertion, 5),
        op(CigarKind::Deletion, 2),
        op(CigarKind::Skip, 100),
        op(CigarKind::SequenceMatch, 3),
        op(CigarKind::SequenceMismatch, 1),
        op(CigarKind::Pad, 9),
        op(CigarKind::SoftClip, 6),
        op(CigarKind::HardClip, 1),
    ];
    // 100 + (10 + 2 + 100 + 3 + 1) + (6 + 1)
    assert_eq!(get_5p_pos(&record(0x10, Some(101), cigar, vec![])), Ok(223));
}

#[test]
fn reverse_read_of_clips_alone_counts_them_as_trailing() {
    let cigar = vec![op(CigarKind::SoftClip, 4), op(CigarKind::HardClip, 6)];
    assert_eq!(get_5p_pos(&record(0x10, Some(1), cigar, vec![])), Ok(10));
}

#[test]
fn empty_cigar_gives_the_start() {
    assert_eq!(get_5p_pos(&record(0, Some(8), vec![], vec![])), Ok(7));
    assert_eq!(get_5p_pos(&record(0x10, Some(8), vec![], vec![])), Ok(7));
}

#[test]
fn missing_start_gives_minus_one() {
    let cigar = vec![op(CigarKind::SoftClip, 4), op(CigarKind::Match, 6)];
    assert_eq!(get_5p_pos(&record(0, None, cigar.clone(), vec![])), Ok(-1));
    assert_eq!(get_5p_pos(&record(0x10, None, cigar.clone(), vec![])), Ok(-1));
    assert_eq!(get_5p_pos(&record(0, Some(0), cigar, vec![])), Ok(-1));
}

#[test]
fn position_beyond_32_bits_is_refused() {
    let cigar = vec![op(CigarKind::Match, i32::MAX as usize)];
    assert_eq!(
        get_5p_pos(&record(0x10, Some(2), cigar, vec![])),
        Err(PositionError::OutOfRange)
    );
    let cigar = vec![op(CigarKind::Match, i32::MAX as usize - 1)];
    assert_eq!(get_5p_pos(&record(0x10, Some(2), cigar, vec![])), Ok(i32::MAX));
    let cigar = vec![op(CigarKind::SoftClip, usize::MAX), op(CigarKind::SoftClip, usize::MAX)];
    assert_eq!(
        get_5p_pos(&record(0, Some(1), cigar, vec![])),
        Err(PositionError::OutOfRange)
    );
    let cigar = vec![op(CigarKind::HardClip, 1usize << 31)];
    assert_eq!(get_5p_pos(&record(0, Some(1), cigar, vec![])), Ok(i32::MIN));
    let cigar = vec![op(CigarKind::HardClip, (1usize << 31) + 1)];
    assert_eq!(
        get_5p_pos(&record(0, Some(1), cigar, vec![])),
        Err(PositionError::OutOfRange)
    );
    assert_eq!(
        get_5p_pos(&record(0, Some((1usize << 31) + 1), vec![], vec![])),
        Err(PositionError::OutOfRange)
    );
}

#[test]
fn score_sums_the_qualities_from_15_on() {
    let quals = vec![0, 14, 15, 16, 40, 255, 3];
    assert_eq!(get_score(&record(0, Some(1), vec![], quals)), 15 + 16 + 40 + 255);
}

#[test]
fn score_of_no_qualities_is_zero() {
    assert_eq!(get_score(&record(0, Some(1), vec![], vec![])), 0);
    assert_eq!(get_score(&record(0, Some(1), vec![], vec![14; 100])), 0);
}

#[test]
fn scores_add_as_32_bit_numbers() {
    assert_eq!(add_scores(50, 60), 110);
    assert_eq!(add_scores(u32::MAX, 2), 1);
}

#[test]
fn kinds_that_consume_the_reference() {
    let consuming = [
        CigarKind::Match,
        CigarKind::Deletion,
        CigarKind::Skip,
        CigarKind::SequenceMatch,
        CigarKind::SequenceMismatch,
    ];
    let others = [
        CigarKind::Insertion,
        CigarKind::SoftClip,
        CigarKind::HardClip,
        CigarKind::Pad,
    ];
    for kind in consuming {
        assert!(kind.consumes_reference());
        assert!(!kind.is_clip());
    }
    for kind in others {
        assert!(!kind.consumes_reference());
    }
    assert!(CigarKind::SoftClip.is_clip());
    assert!(CigarKind::HardClip.is_clip());
    assert!(!CigarKind::Pad.is_clip());
    assert!(!CigarKind::Insertion.is_clip());
}

#[test]
fn flags_that_pass_a_record_over() {
    assert!(!is_skipped(0));
    assert!(!is_skipped(0x1 | 0x2 | 0x8 | 0x10 | 0x20 | 0x40 | 0x80 | 0x200 | 0x400));
    assert!(is_skipped(0x4));
    assert!(is_skipped(0x100));
    assert!(is_skipped(0x800));
    assert!(is_skipped(0x1 | 0x800));
}

#[test]
fn flags_of_a_segment_that_waits_for_its_mate() {
    assert!(expects_mate(0x1));
    assert!(expects_mate(0x1 | 0x10 | 0x40));
    assert!(!expects_mate(0x1 | 0x8));
    assert!(!expects_mate(0));
    assert!(!expects_mate(0x8));
    assert!(!expects_mate(0x2));
}

#[test]
fn flag_bits_are_tested_one_by_one() {
    assert!(flag_set(0x10, 0x10));
    assert!(!flag_set(0x20, 0x10));
    assert!(flag_set(0xffff, 0x800));
    assert!(!flag_set(0, 0x1));
}
