use rmduprs::collector::DuplicateCollector;
use rmduprs::library::{LibraryTable, ReadGroup};
use rmduprs::metadata::Metadata;
use rmduprs::record::{AlignmentRecord, CigarKind, CigarOp};
use rmduprs::resolver::PairResolver;
use rmduprs::rewrite::rewrite_record;
use rmduprs::spill::{load_chunk, save_chunk_parallel};

const PAIRED: u16 = 0x1;
const UNMAPPED: u16 = 0x4;
const MATE_UNMAPPED: u16 = 0x8;
const REVERSE: u16 = 0x10;
const SECONDARY: u16 = 0x100;
const DUPLICATE: u16 = 0x400;

fn record(name: &str, flags: u16, ref_id: i32, start: usize, qual: u8, rg: &str) -> AlignmentRecord {
    AlignmentRecord {
        flags,
        ref_id,
        alignment_start: Some(start),
        cigar: vec![CigarOp { kind: CigarKind::Match, len: 10 }],
        quality_scores: vec![qual; 4],
        name: Some(name.as_bytes().to_vec()),
        read_group: Some(rg.as_bytes().to_vec()),
    }
}

/// Index by index: name, flags, reference, start, quality, read group.
fn input() -> Vec<(&'static str, u16, i32, usize, u8, &'static str)> {
    vec![
        ("f1", 0, 0, 101, 20, "rg1"),                      // 0: fragment, score 80
        ("p1", PAIRED, 0, 201, 30, "rg1"),                 // 1: left end of p1
        ("f2", 0, 0, 101, 30, "rg1"),                      // 2: fragment, score 120, kept
        ("u1", UNMAPPED, -1, 1, 30, "rg1"),                // 3: passed over
        ("p2", PAIRED, 0, 201, 20, "rg1"),                 // 4: left end of p2
        ("f3", 0, 0, 101, 30, "rg2"),                      // 5: other library, kept
        ("p1", PAIRED | REVERSE, 1, 291, 30, "rg1"),       // 6: right end of p1
        ("s1", SECONDARY, 0, 101, 40, "rg1"),              // 7: passed over
        ("f4", PAIRED | MATE_UNMAPPED, 0, 201, 40, "rg1"), // 8: orphan beside p1, p2
        ("p2", PAIRED | REVERSE, 1, 291, 20, "rg1"),       // 9: right end of p2
        ("f5", REVERSE, 1, 291, 40, "rg1"),                // 10: on a second end
        ("p3", PAIRED, 2, 5, 40, "rg1"),                   // 11: its mate never comes
        ("f6", 0, 2, 5, 10, "rg1"),                        // 12: beside the lone mate
    ]
}

fn duplicates(batch_size: usize) -> Vec<u32> {
    let libraries = LibraryTable::new(vec![
        ReadGroup { id: b"rg1".to_vec(), library: Some(b"libA".to_vec()) },
        ReadGroup { id: b"rg2".to_vec(), library: None },
    ])
    .unwrap();
    let mut resolver = PairResolver::new(libraries, batch_size);
    let mut spills: Vec<Vec<u8>> = Vec::new();
    for (name, flags, ref_id, start, qual, rg) in input() {
        if let Some(batch) = resolver.observe(record(name, flags, ref_id, start, qual, rg)).unwrap() {
            spills.push(save_chunk_parallel(batch).unwrap());
        }
    }
    let out = resolver.finish();
    if let Some(batch) = out.last_batch {
        spills.push(save_chunk_parallel(batch).unwrap());
    }
    assert_eq!((out.pairs, out.singles, out.unmatched), (2, 7, 1));

    let runs: Vec<Vec<Metadata>> = spills.iter().map(|s| load_chunk(s).unwrap()).collect();
    let mut collector = DuplicateCollector::new(out.second_ends);
    let mut next = vec![0usize; runs.len()];
    for (f_idx, run) in runs.iter().enumerate() {
        if let Some(&data) = run.first() {
            collector.push(data, f_idx).unwrap();
            next[f_idx] = 1;
        }
    }
    while let Some(f_idx) = collector.advance().unwrap() {
        if let Some(&data) = runs[f_idx].get(next[f_idx]) {
            collector.push(data, f_idx).unwrap();
            next[f_idx] += 1;
        }
    }
    let (mask, _) = collector.finish();

    // Second pass over the same records.
    let mut marked = Vec::new();
    for (idx, (_, flags, _, _, _, _)) in input().into_iter().enumerate() {
        let mut data = vec![0u8; 16];
        data[12] = flags as u8;
        data[13] = (flags >> 8) as u8 | 0x04;
        assert!(rewrite_record(&mut data, flags, idx, &mask, false));
        let out_flags = u16::from_le_bytes([data[12], data[13]]);
        if flags & SECONDARY != 0 {
            assert_eq!(out_flags, flags | DUPLICATE);
        } else {
            assert_eq!(out_flags & !DUPLICATE, flags);
            assert_eq!(out_flags & DUPLICATE != 0, mask.contains(idx as u32));
            if out_flags & DUPLICATE != 0 {
                marked.push(idx as u32);
            }
        }
    }
    assert_eq!(marked, mask.iter().collect::<Vec<u32>>());
    marked
}

#[test]
fn whole_pipeline_marks_the_duplicates() {
    // 0: fragment of lower score; 4 and 9: pair of lower score; 8: fragment
    // beside pairs; 10: fragment on the right end of the pairs; 12: fragment
    // beside a lone mate.
    assert_eq!(duplicates(100), vec![0, 4, 8, 9, 10, 12]);
}

#[test]
fn whole_pipeline_does_not_depend_on_the_batch_size() {
    for batch_size in 0..12 {
        assert_eq!(duplicates(batch_size), vec![0, 4, 8, 9, 10, 12]);
    }
}
