use rmduprs::metadata::{DecodeError, Metadata};
use std::cmp::Ordering;

#[test]
fn test_metadata_se_roundtrip() {
    let meta = Metadata::new_se(1, 0, 1000, 0, 50, 42);
    let mut buf = Vec::new();
    meta.write_to(&mut buf);

    let read_meta = Metadata::read_from(&buf).unwrap().unwrap();

    assert_eq!(meta, read_meta);
    assert_eq!(meta.paired_end, 0);
    assert_eq!(meta.idx2, 0);
}

#[test]
fn test_metadata_pe_roundtrip() {
    let meta = Metadata::new_pe(
        1,    // lib_id
        0,    // ref_id1
        1000, // pos1
        0,    // rev1
        0,    // ref_id2
        1050, // pos2
        1,    // rev2
        50,   // score
        42,   // idx1
        43,   // idx2
    );
    let mut buf = Vec::new();
    meta.write_to(&mut buf);

    let read_meta = Metadata::read_from(&buf).unwrap().unwrap();

    assert_eq!(meta, read_meta);
    assert_eq!(meta.paired_end, 1);
    assert_eq!(meta.idx2, 43);
}

#[test]
fn test_metadata_binary_size() {
    assert_eq!(Metadata::binary_size(), 43);
}

#[test]
fn test_metadata_ordering() {
    let m1 = Metadata::new_se(0, 0, 100, 0, 50, 1);
    let m2 = Metadata::new_se(0, 0, 200, 0, 50, 2);

    assert!(m1 < m2);

    let m3 = Metadata::new_se(0, 0, 100, 1, 50, 3);
    assert!(m1 < m3);
    assert!(m3 < m2);
}

#[test]
fn test_metadata_read_from_empty() {
    let result = Metadata::read_from(&Vec::new()).unwrap();
    assert!(result.is_none());
}

fn sample_pair() -> Metadata {
    Metadata::new_pe(3, 1, 0x0102_0304, 1, -2, -1, 0, 0xdead_beef, 0x0102_0304_0506_0708, 9)
}

#[test]
fn encoding_has_the_fields_in_order_little_endian() {
    let mut buf = Vec::new();
    sample_pair().write_to(&mut buf);
    let expected: Vec<u8> = vec![
        3, 0, 0, 0, // lib_id
        1, 0, 0, 0, // ref_id1
        4, 3, 2, 1, // pos1
        1, 0, // rev1, rev2
        0xfe, 0xff, 0xff, 0xff, // ref_id2 = -2
        0xff, 0xff, 0xff, 0xff, // pos2 = -1
        0xef, 0xbe, 0xad, 0xde, // score
        8, 7, 6, 5, 4, 3, 2, 1, // idx1
        9, 0, 0, 0, 0, 0, 0, 0, // idx2
        1, // paired_end
    ];
    assert_eq!(buf, expected);
    assert_eq!(buf.len(), 43);
}

#[test]
fn write_to_appends() {
    let mut buf = vec![0xaa, 0xbb];
    let first = Metadata::new_se(0, 0, 1, 0, 2, 3);
    let second = sample_pair();
    first.write_to(&mut buf);
    second.write_to(&mut buf);
    assert_eq!(buf.len(), 2 + 43 + 43);
    assert_eq!(&buf[..2], &[0xaa, 0xbb]);
    assert_eq!(Metadata::read_from(&buf[2..]), Ok(Some(first)));
    assert_eq!(Metadata::read_from(&buf[45..]), Ok(Some(second)));
    assert_eq!(Metadata::read_from(&buf[88..]), Ok(None));
}

#[test]
fn round_trip_of_extreme_values() {
    let cases = [
        Metadata {
            lib_id: i32::MIN,
            ref_id1: i32::MAX,
            pos1: -1,
            rev1: 255,
            rev2: 254,
            ref_id2: i32::MIN,
            pos2: i32::MAX,
            score: u32::MAX,
            idx1: u64::MAX,
            idx2: u64::MAX - 1,
            paired_end: 253,
        },
        Metadata::new_se(0, 0, 0, 0, 0, 0),
        Metadata::new_se(-1, -1, -1, 1, 1, 1 << 40),
    ];
    for m in cases {
        let mut buf = Vec::new();
        m.write_to(&mut buf);
        assert_eq!(buf.len(), 43);
        assert_eq!(Metadata::read_from(&buf), Ok(Some(m)));
    }
}

#[test]
fn no_bytes_are_the_end_of_the_stream() {
    assert_eq!(Metadata::read_from(&[]), Ok(None));
}

#[test]
fn a_record_cut_short_is_an_error() {
    assert_eq!(Metadata::read_from(&[1]), Err(DecodeError::Truncated));
    assert_eq!(Metadata::read_from(&[1, 0, 0]), Err(DecodeError::Truncated));
    assert_eq!(Metadata::read_from(&[1, 2, 3, 4]), Err(DecodeError::Truncated));
    let mut buf = Vec::new();
    sample_pair().write_to(&mut buf);
    assert_eq!(Metadata::read_from(&buf[..42]), Err(DecodeError::Truncated));
    assert_eq!(Metadata::read_from(&buf[..43]), Ok(Some(sample_pair())));
}

#[test]
fn new_se_fills_the_fragment_fields() {
    let m = Metadata::new_se(2, 5, 77, 1, 40, 12);
    assert_eq!(
        m,
        Metadata {
            lib_id: 2,
            ref_id1: 5,
            pos1: 77,
            rev1: 1,
            rev2: 0,
            ref_id2: -1,
            pos2: 0,
            score: 40,
            idx1: 12,
            idx2: 0,
            paired_end: 0,
        }
    );
}

#[test]
fn order_goes_field_by_field() {
    let base = Metadata::new_pe(1, 1, 1, 1, 1, 1, 1, 1, 1, 1);
    let bumps: [fn(&mut Metadata); 11] = [
        |m| m.lib_id += 1,
        |m| m.ref_id1 += 1,
        |m| m.pos1 += 1,
        |m| m.rev1 += 1,
        |m| m.rev2 += 1,
        |m| m.ref_id2 += 1,
        |m| m.pos2 += 1,
        |m| m.score += 1,
        |m| m.idx1 += 1,
        |m| m.idx2 += 1,
        |m| m.paired_end += 1,
    ];
    // A later field never outweighs an earlier one.
    for (i, bump) in bumps.iter().enumerate() {
        let mut higher = base;
        bump(&mut higher);
        for later in bumps.iter().skip(i + 1) {
            let mut lower = base;
            later(&mut lower);
            later(&mut lower);
            assert!(lower < higher);
            assert!(lower.precedes(&higher));
            assert!(!higher.precedes(&lower));
            assert_eq!(lower.compare(&higher), Ordering::Less);
            assert_eq!(higher.compare(&lower), Ordering::Greater);
        }
        assert!(base < higher);
        assert_eq!(base.compare(&base), Ordering::Equal);
    }
}

#[test]
fn strand_of_the_right_end_is_compared_before_its_position() {
    let a = Metadata::new_pe(0, 0, 100, 0, 5, 900, 0, 10, 0, 1);
    let b = Metadata::new_pe(0, 0, 100, 0, 1, 100, 1, 10, 2, 3);
    assert!(a < b);
}

#[test]
fn same_group_compares_the_group_key() {
    let a = Metadata::new_pe(0, 0, 100, 0, 5, 900, 0, 10, 0, 1);
    let b = Metadata::new_se(0, 0, 100, 0, 3, 9);
    let c = Metadata::new_se(0, 0, 100, 1, 3, 9);
    let d = Metadata::new_se(1, 0, 100, 0, 3, 9);
    assert!(a.same_group(&b));
    assert!(!a.same_group(&c));
    assert!(!a.same_group(&d));
}

#[test]
fn derived_order_is_the_order_of_entries() {
    let mut entries = vec![
        Metadata::new_se(0, 1, 500, 0, 30, 4),
        Metadata::new_pe(0, 0, 100, 0, 1, 200, 1, 70, 0, 1),
        Metadata::new_se(1, 0, 5, 0, 30, 9),
        Metadata::new_se(0, 0, 100, 0, 50, 2),
        Metadata::new_pe(0, 0, 100, 0, 1, 200, 1, 50, 5, 3),
        Metadata::new_se(0, 0, 100, 1, 50, 6),
        Metadata::new_se(-1, 7, 7, 1, 1, 8),
    ];
    for a in &entries {
        for b in &entries {
            assert_eq!(a.cmp(b), a.compare(b));
            assert_eq!(a.partial_cmp(b), Some(a.compare(b)));
        }
    }
    let mut by_compare = entries.clone();
    by_compare.sort_by(|a, b| a.compare(b));
    entries.sort();
    assert_eq!(entries, by_compare);
}
