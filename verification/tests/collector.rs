use rmduprs::classifier::{ClassifyError, Tallies};
use rmduprs::collector::{CollectError, DuplicateCollector};
use rmduprs::merge::MergeError;
use rmduprs::metadata::Metadata;
use rmduprs::second_ends::SecondEndSet;

fn collect(runs: &[Vec<Metadata>], second_ends: SecondEndSet) -> (Vec<u32>, Tallies) {
    let mut collector = DuplicateCollector::new(second_ends);
    let mut next = vec![0usize; runs.len()];
    for (f_idx, run) in runs.iter().enumerate() {
        if let Some(&data) = run.first() {
            collector.push(data, f_idx).unwrap();
            next[f_idx] = 1;
        }
    }
    while let Some(f_idx) = collector.advance().unwrap() {
        if let Some(&data) = runs[f_idx].get(next[f_idx]) {
            collector.push(data, f_idx).unwrap();
            next[f_idx] += 1;
        }
    }
    let (mask, tallies) = collector.finish();
    (mask.iter().collect(), tallies)
}

fn entries() -> Vec<Metadata> {
    vec![
        Metadata::new_se(0, 0, 100, 0, 50, 0),
        Metadata::new_pe(0, 0, 200, 0, 1, 300, 1, 50, 5, 6),
        Metadata::new_se(0, 0, 100, 0, 40, 2),
        Metadata::new_se(1, 0, 200, 0, 90, 9),
        Metadata::new_se(0, 0, 200, 0, 90, 4),
        Metadata::new_se(0, 0, 100, 0, 70, 1),
        Metadata::new_pe(0, 0, 200, 0, 1, 300, 1, 70, 7, 8),
        Metadata::new_se(0, 0, 100, 1, 40, 3),
    ]
}

fn runs_of(batch_size: usize) -> Vec<Vec<Metadata>> {
    entries()
        .chunks(batch_size)
        .map(|c| {
            let mut run = c.to_vec();
            run.sort_by(|a, b| a.compare(b));
            run
        })
        .collect()
}

#[test]
fn nothing_collected_marks_nothing() {
    let (marks, tallies) = collect(&[], SecondEndSet::new());
    assert!(marks.is_empty());
    assert_eq!(tallies, Tallies { orphan: 0, pe: 0, se_only: 0 });
    let (marks, _) = collect(&[vec![], vec![]], SecondEndSet::new());
    assert!(marks.is_empty());
}

#[test]
fn duplicates_do_not_depend_on_the_batch_size() {
    for batch_size in 1..=9 {
        let (marks, tallies) = collect(&runs_of(batch_size), SecondEndSet::new());
        assert_eq!(marks, vec![0, 2, 4, 5, 6]);
        assert_eq!(tallies, Tallies { orphan: 1, pe: 2, se_only: 2 });
    }
}

#[test]
fn second_ends_make_orphans() {
    let mut second_ends = SecondEndSet::new();
    second_ends.insert((0, 0, 100, 1));
    second_ends.insert((1, 0, 200, 0));
    let (marks, tallies) = collect(&runs_of(3), second_ends);
    assert_eq!(marks, vec![0, 2, 3, 4, 5, 6, 9]);
    assert_eq!(tallies, Tallies { orphan: 3, pe: 2, se_only: 2 });
}

#[test]
fn run_that_is_not_sorted_is_refused() {
    let mut collector = DuplicateCollector::new(SecondEndSet::new());
    collector.push(Metadata::new_se(0, 0, 100, 0, 50, 0), 0).unwrap();
    assert_eq!(collector.advance(), Ok(Some(0)));
    assert_eq!(
        collector.push(Metadata::new_se(0, 0, 99, 0, 50, 1), 0),
        Err(CollectError::Merge(MergeError::OutOfOrder))
    );
    assert_eq!(collector.advance(), Ok(None));
}

#[test]
fn entry_with_an_index_beyond_32_bits_stops_the_collector() {
    let mut collector = DuplicateCollector::new(SecondEndSet::new());
    collector.push(Metadata::new_se(0, 0, 100, 0, 50, 1 << 32), 0).unwrap();
    assert_eq!(
        collector.advance(),
        Err(CollectError::Classify(ClassifyError::IndexOutOfRange))
    );
}
