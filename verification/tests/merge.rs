use rmduprs::merge::{MergeError, MergeItem, Merger};
use rmduprs::metadata::Metadata;

fn entry(pos: i32, idx: u64) -> Metadata {
    Metadata::new_se(0, 0, pos, 0, 10, idx)
}

fn item(pos: i32, idx: u64, f_idx: usize) -> MergeItem {
    MergeItem { data: entry(pos, idx), f_idx }
}

fn merge_runs(runs: &[Vec<Metadata>]) -> Vec<Metadata> {
    let mut merger = Merger::new();
    let mut next = vec![0usize; runs.len()];
    for (f_idx, run) in runs.iter().enumerate() {
        if let Some(&data) = run.first() {
            merger.push(MergeItem { data, f_idx }).unwrap();
            next[f_idx] = 1;
        }
    }
    let mut out = Vec::new();
    while let Some(it) = merger.pop() {
        out.push(it.data);
        if let Some(&data) = runs[it.f_idx].get(next[it.f_idx]) {
            merger.push(MergeItem { data, f_idx: it.f_idx }).unwrap();
            next[it.f_idx] += 1;
        }
    }
    out
}

#[test]
fn empty_merge_hands_out_nothing() {
    let mut merger = Merger::new();
    assert_eq!(merger.len(), 0);
    assert_eq!(merger.pop(), None);
    assert_eq!(merger.pop(), None);
}

#[test]
fn pop_hands_out_the_least_entry() {
    let mut merger = Merger::new();
    for (f_idx, pos) in [50, 10, 40, 30, 20, 60, 5].into_iter().enumerate() {
        assert_eq!(merger.push(item(pos, f_idx as u64, f_idx)), Ok(()));
    }
    assert_eq!(merger.len(), 7);
    let mut seen = Vec::new();
    while let Some(it) = merger.pop() {
        seen.push((it.data.pos1, it.f_idx));
    }
    assert_eq!(seen, vec![(5, 6), (10, 1), (20, 4), (30, 3), (40, 2), (50, 0), (60, 5)]);
    assert_eq!(merger.len(), 0);
}

#[test]
fn equal_entries_come_out_by_run_index() {
    let mut merger = Merger::new();
    for f_idx in [3usize, 0, 2, 4, 1] {
        merger.push(item(7, 1, f_idx)).unwrap();
    }
    let mut order = Vec::new();
    while let Some(it) = merger.pop() {
        order.push(it.f_idx);
    }
    assert_eq!(order, vec![0, 1, 2, 3, 4]);
}

#[test]
fn entry_before_the_last_one_handed_out_is_refused() {
    let mut merger = Merger::new();
    merger.push(item(10, 0, 0)).unwrap();
    merger.push(item(20, 1, 1)).unwrap();
    assert_eq!(merger.pop(), Some(item(10, 0, 0)));
    assert_eq!(merger.push(item(9, 2, 0)), Err(MergeError::OutOfOrder));
    assert_eq!(merger.len(), 1);
    // An equal entry and a later one are taken.
    assert_eq!(merger.push(item(10, 0, 0)), Ok(()));
    assert_eq!(merger.push(item(15, 3, 0)), Ok(()));
    assert_eq!(merger.pop(), Some(item(10, 0, 0)));
    assert_eq!(merger.pop(), Some(item(15, 3, 0)));
    assert_eq!(merger.pop(), Some(item(20, 1, 1)));
    assert_eq!(merger.pop(), None);
}

#[test]
fn merged_stream_is_sorted_and_complete() {
    let runs = vec![
        vec![entry(1, 0), entry(4, 1), entry(4, 2), entry(9, 3)],
        vec![],
        vec![entry(2, 4), entry(3, 5), entry(10, 6)],
        vec![entry(0, 7)],
        vec![entry(4, 1), entry(4, 8)],
    ];
    let merged = merge_runs(&runs);
    let mut all: Vec<Metadata> = runs.iter().flatten().copied().collect();
    all.sort_by(|a, b| a.compare(b));
    assert_eq!(merged, all);
}

#[test]
fn merged_stream_does_not_depend_on_the_batches() {
    let mut all = Vec::new();
    let mut x: u64 = 99;
    for i in 0..600u64 {
        x = x.wrapping_mul(6364136223846793005).wrapping_add(1442695040888963407);
        all.push(entry(((x >> 40) % 50) as i32, i));
    }
    let mut expected = all.clone();
    expected.sort_by(|a, b| a.compare(b));
    for batch_size in [1usize, 2, 7, 100, 600, 1000] {
        let runs: Vec<Vec<Metadata>> = all
            .chunks(batch_size)
            .map(|c| {
                let mut run = c.to_vec();
                run.sort_by(|a, b| a.compare(b));
                run
            })
            .collect();
        assert_eq!(merge_runs(&runs), expected);
    }
}
