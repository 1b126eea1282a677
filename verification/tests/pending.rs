use rmduprs::pending::{PendingMate, PendingPairs};

fn mate(idx: u64) -> PendingMate {
    PendingMate { lib_id: 0, ref_id: 1, pos: idx as i32 * 10, rev: idx % 2 == 1, score: 30, idx }
}

fn name(s: &str) -> Vec<u8> {
    s.as_bytes().to_vec()
}

#[test]
fn mate_waits_until_it_is_taken() {
    let mut pending = PendingPairs::new();
    assert_eq!(pending.take(&name("read1")), None);
    pending.insert(name("read1"), mate(1));
    pending.insert(name("read2"), mate(2));
    pending.insert(name("read"), mate(3));
    assert_eq!(pending.take(&name("read3")), None);
    assert_eq!(pending.take(&name("read1")), Some(mate(1)));
    assert_eq!(pending.take(&name("read1")), None);
    assert_eq!(pending.take(&name("read")), Some(mate(3)));
    assert_eq!(pending.take(&name("read2")), Some(mate(2)));
    assert_eq!(pending.drain(), Vec::new());
}

#[test]
fn drain_hands_over_every_mate_once() {
    let mut pending = PendingPairs::new();
    for i in 0..100u64 {
        pending.insert(name(&format!("read{}", i)), mate(i));
    }
    for i in (0..100u64).filter(|i| i % 3 == 0) {
        assert_eq!(pending.take(&name(&format!("read{}", i))), Some(mate(i)));
    }
    let mut left: Vec<u64> = pending.drain().iter().map(|m| m.idx).collect();
    left.sort();
    let expected: Vec<u64> = (0..100u64).filter(|i| i % 3 != 0).collect();
    assert_eq!(left, expected);
}

#[test]
fn names_of_one_bucket_are_kept_apart() {
    // Far more names than buckets: many share a bucket.
    let mut pending = PendingPairs::new();
    let n = 200_000u64;
    for i in 0..n {
        pending.insert(name(&format!("r{}", i)), mate(i));
    }
    for i in (0..n).rev() {
        if i % 2 == 0 {
            assert_eq!(pending.take(&name(&format!("r{}", i))), Some(mate(i)));
        }
    }
    for i in 0..n {
        let expected = if i % 2 == 0 { None } else { Some(mate(i)) };
        assert_eq!(pending.take(&name(&format!("r{}", i))), expected);
    }
    assert_eq!(pending.drain(), Vec::new());
}

#[test]
fn empty_name_is_a_name() {
    let mut pending = PendingPairs::new();
    pending.insert(Vec::new(), mate(4));
    assert_eq!(pending.take(&vec![0]), None);
    assert_eq!(pending.take(&Vec::new()), Some(mate(4)));
    assert_eq!(pending.take(&Vec::new()), None);
}
