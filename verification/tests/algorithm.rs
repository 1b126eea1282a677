use rmduprs::algorithm::identify_dups;
use rmduprs::metadata::Metadata;
use rmduprs::second_ends::SecondEndSet;
use roaring::RoaringBitmap;

/// Create a test metadata for SE read
fn make_se(
    lib_id: i32,
    ref_id: i32,
    pos: i32,
    rev: u8,
    score: u32,
    idx: u64,
    paired_end: u8,
) -> Metadata {
    Metadata {
        lib_id,
        ref_id1: ref_id,
        pos1: pos,
        rev1: rev,
        rev2: 0,
        ref_id2: -1,
        pos2: 0,
        score,
        idx1: idx,
        idx2: 0,
        paired_end,
    }
}

/// Create a test metadata for PE read
fn make_pe(
    lib_id: i32,
    ref_id1: i32,
    pos1: i32,
    rev1: u8,
    ref_id2: i32,
    pos2: i32,
    rev2: u8,
    score: u32,
    idx1: u64,
    idx2: u64,
) -> Metadata {
    Metadata {
        lib_id,
        ref_id1,
        pos1,
        rev1,
        rev2,
        ref_id2,
        pos2,
        score,
        idx1,
        idx2,
        paired_end: 1,
    }
}

fn marks(mask: &RoaringBitmap) -> Vec<u32> {
    mask.iter().collect()
}

#[test]
fn test_empty_group() {
    let mask = &mut RoaringBitmap::new();
    let pe_second_ends = SecondEndSet::new();
    let (orphan, pe, se_only) = identify_dups(&[], mask, &pe_second_ends);
    assert_eq!((orphan, pe, se_only), (0, 0, 0));
}

#[test]
fn test_single_read_not_marked() {
    let group = vec![make_se(0, 0, 100, 0, 50, 0, 0)];
    let mask = &mut RoaringBitmap::new();
    let pe_second_ends = SecondEndSet::new();
    let (orphan, pe, se_only) = identify_dups(&group, mask, &pe_second_ends);
    assert_eq!((orphan, pe, se_only), (0, 0, 0));
    assert!(mask.is_empty());
}

#[test]
fn test_fragment_deduplication() {
    // Two SE reads at same position, no PE reads
    let group = vec![
        make_se(0, 0, 100, 0, 50, 0, 0),
        make_se(0, 0, 100, 0, 70, 1, 0), // higher score, should be kept
        make_se(0, 0, 100, 0, 40, 2, 0),
    ];
    let mask = &mut RoaringBitmap::new();
    let pe_second_ends = SecondEndSet::new();
    let (orphan, pe, se_only) = identify_dups(&group, mask, &pe_second_ends);
    assert_eq!((orphan, pe, se_only), (0, 0, 2));
    assert_eq!(mask.len(), 2);
    assert!(!mask.contains(1)); // best one not marked
}

#[test]
fn test_orphan_handling() {
    // SE fragment + PE reads = orphan
    let group = vec![
        make_se(0, 0, 100, 0, 50, 0, 0),            // fragment (paired_end=0)
        make_pe(0, 0, 100, 0, 1, 200, 1, 60, 1, 2), // PE
    ];
    let mask = &mut RoaringBitmap::new();
    let pe_second_ends = SecondEndSet::new();
    let (orphan, pe, se_only) = identify_dups(&group, mask, &pe_second_ends);
    assert_eq!((orphan, pe, se_only), (1, 0, 0));
    assert!(mask.contains(0));
}

#[test]
fn test_pe_deduplication() {
    // Two PE pairs at same position
    let group = vec![
        make_pe(0, 0, 100, 0, 1, 200, 1, 70, 0, 1), // higher score, kept
        make_pe(0, 0, 100, 0, 1, 200, 1, 50, 2, 3), // lower score, marked
    ];
    let mask = &mut RoaringBitmap::new();
    let pe_second_ends = SecondEndSet::new();
    let (orphan, pe, se_only) = identify_dups(&group, mask, &pe_second_ends);
    assert_eq!((orphan, pe, se_only), (0, 2, 0));
    assert_eq!(mask.len(), 2);
    assert!(!mask.contains(0));
    assert!(!mask.contains(1));
}

#[test]
fn test_different_library_separate() {
    let group = vec![
        make_se(0, 0, 100, 0, 50, 0, 0),
        make_se(0, 0, 100, 0, 60, 1, 0), // same lib_id
    ];
    let mask = &mut RoaringBitmap::new();
    let pe_second_ends = SecondEndSet::new();
    let (orphan, pe, se_only) = identify_dups(&group, mask, &pe_second_ends);
    // Same position, same library, should mark one as duplicate
    assert_eq!((orphan, pe, se_only), (0, 0, 1));
    assert_eq!(mask.len(), 1);
}

#[test]
fn test_pe_second_ends_contains_check() {
    // PE second end check via pe_second_ends set
    let group = vec![
        make_se(0, 0, 100, 0, 50, 0, 0), // SE fragment
    ];
    let mut pe_second_ends = SecondEndSet::new();
    pe_second_ends.insert((0, 0, 100, 0)); // This read IS a PE second end

    let mask = &mut RoaringBitmap::new();
    let (orphan, pe, se_only) = identify_dups(&group, mask, &pe_second_ends);
    assert_eq!((orphan, pe, se_only), (1, 0, 0));
}

#[test]
fn scenario_single_fragment_is_kept() {
    let group = vec![make_se(0, 0, 100, 0, 50, 0, 0)];
    let mut mask = RoaringBitmap::new();
    let counts = identify_dups(&group, &mut mask, &SecondEndSet::new());
    assert_eq!(marks(&mask), Vec::<u32>::new());
    assert_eq!(counts, (0, 0, 0));
}

#[test]
fn scenario_fragments_dedup_by_score() {
    let group = vec![
        make_se(0, 0, 100, 0, 50, 0, 0),
        make_se(0, 0, 100, 0, 70, 1, 0),
        make_se(0, 0, 100, 0, 40, 2, 0),
    ];
    let mut mask = RoaringBitmap::new();
    let counts = identify_dups(&group, &mut mask, &SecondEndSet::new());
    assert_eq!(marks(&mask), vec![0, 2]);
    assert_eq!(counts, (0, 0, 2));
}

#[test]
fn scenario_orphan_beside_pair() {
    let group = vec![
        make_se(0, 0, 100, 0, 50, 0, 0),
        make_pe(0, 0, 100, 0, 1, 200, 1, 60, 1, 2),
    ];
    let mut mask = RoaringBitmap::new();
    let counts = identify_dups(&group, &mut mask, &SecondEndSet::new());
    assert_eq!(marks(&mask), vec![0]);
    assert_eq!(counts, (1, 0, 0));
}

#[test]
fn scenario_pairs_dedup_by_score() {
    let group = vec![
        make_pe(0, 0, 100, 0, 1, 200, 1, 70, 0, 1),
        make_pe(0, 0, 100, 0, 1, 200, 1, 50, 2, 3),
    ];
    let mut mask = RoaringBitmap::new();
    let counts = identify_dups(&group, &mut mask, &SecondEndSet::new());
    assert_eq!(marks(&mask), vec![2, 3]);
    assert_eq!(counts, (0, 2, 0));
}

#[test]
fn scenario_fragment_on_second_end() {
    let group = vec![make_se(0, 0, 100, 0, 50, 7, 0)];
    let mut second_ends = SecondEndSet::new();
    assert!(second_ends.insert((0, 0, 100, 0)));
    let mut mask = RoaringBitmap::new();
    let counts = identify_dups(&group, &mut mask, &second_ends);
    assert_eq!(marks(&mask), vec![7]);
    assert_eq!(counts, (1, 0, 0));
}

#[test]
fn scenario_no_records() {
    let mut mask = RoaringBitmap::new();
    let counts = identify_dups(&[], &mut mask, &SecondEndSet::new());
    assert!(mask.is_empty());
    assert_eq!(counts, (0, 0, 0));
}

#[test]
fn fragments_of_equal_score_keep_the_first() {
    let group = vec![
        make_se(0, 0, 100, 0, 60, 10, 0),
        make_se(0, 0, 100, 0, 60, 11, 0),
        make_se(0, 0, 100, 0, 60, 12, 0),
    ];
    let mut mask = RoaringBitmap::new();
    let counts = identify_dups(&group, &mut mask, &SecondEndSet::new());
    assert_eq!(marks(&mask), vec![11, 12]);
    assert_eq!(counts, (0, 0, 2));
}

#[test]
fn pairs_of_equal_score_keep_the_last() {
    let group = vec![
        make_pe(0, 0, 100, 0, 1, 200, 1, 60, 0, 1),
        make_pe(0, 0, 100, 0, 1, 200, 1, 60, 2, 3),
        make_pe(0, 0, 100, 0, 1, 200, 1, 60, 4, 5),
    ];
    let mut mask = RoaringBitmap::new();
    let counts = identify_dups(&group, &mut mask, &SecondEndSet::new());
    assert_eq!(marks(&mask), vec![0, 1, 2, 3]);
    assert_eq!(counts, (0, 4, 0));
}

#[test]
fn pairs_are_compared_within_runs_of_one_right_end() {
    let group = vec![
        make_pe(0, 0, 100, 0, 1, 200, 1, 70, 0, 1),
        make_pe(0, 0, 100, 0, 1, 200, 1, 50, 2, 3),
        make_pe(0, 0, 100, 0, 1, 300, 1, 10, 4, 5),
        make_pe(0, 0, 100, 0, 1, 300, 1, 20, 6, 7),
        make_pe(0, 0, 100, 0, 2, 300, 1, 5, 8, 9),
    ];
    let mut mask = RoaringBitmap::new();
    let counts = identify_dups(&group, &mut mask, &SecondEndSet::new());
    assert_eq!(marks(&mask), vec![2, 3, 4, 5]);
    assert_eq!(counts, (0, 4, 0));
}

#[test]
fn both_rules_apply_to_one_group() {
    let group = vec![
        make_se(0, 0, 100, 0, 90, 0, 0),
        make_se(0, 0, 100, 0, 10, 1, 1),
        make_pe(0, 0, 100, 0, 1, 200, 1, 70, 2, 3),
        make_pe(0, 0, 100, 0, 1, 200, 1, 80, 4, 5),
    ];
    let mut mask = RoaringBitmap::new();
    let counts = identify_dups(&group, &mut mask, &SecondEndSet::new());
    assert_eq!(marks(&mask), vec![0, 2, 3]);
    assert_eq!(counts, (1, 2, 0));
}

#[test]
fn fragment_beside_lone_mate_is_an_orphan() {
    let group = vec![
        make_se(0, 0, 100, 0, 90, 0, 0),
        make_se(0, 0, 100, 0, 10, 1, 1),
    ];
    let mut mask = RoaringBitmap::new();
    let counts = identify_dups(&group, &mut mask, &SecondEndSet::new());
    assert_eq!(marks(&mask), vec![0]);
    assert_eq!(counts, (1, 0, 0));
}

#[test]
fn marks_are_added_to_what_the_set_holds() {
    let group = vec![
        make_se(0, 0, 100, 0, 50, 0, 0),
        make_se(0, 0, 100, 0, 70, 1, 0),
    ];
    let mut mask = RoaringBitmap::new();
    mask.insert(99);
    identify_dups(&group, &mut mask, &SecondEndSet::new());
    assert_eq!(marks(&mask), vec![0, 99]);
}
