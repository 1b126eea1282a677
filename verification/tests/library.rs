use rmduprs::library::{bytes_equal, LibraryTable, ReadGroup};

fn group(id: &str, library: Option<&str>) -> ReadGroup {
    ReadGroup {
        id: id.as_bytes().to_vec(),
        library: library.map(|l| l.as_bytes().to_vec()),
    }
}

fn rg(id: &str) -> Option<Vec<u8>> {
    Some(id.as_bytes().to_vec())
}

#[test]
fn libraries_are_numbered_in_the_order_of_first_appearance() {
    let table = LibraryTable::new(vec![
        group("rg1", Some("libA")),
        group("rg2", Some("libB")),
        group("rg3", Some("libA")),
        group("rg4", None),
        group("rg5", Some("libC")),
        group("rg6", Some("unknown")),
        group("rg7", Some("libB")),
    ])
    .unwrap();
    assert_eq!(table.lib_id(&rg("rg1")), 0);
    assert_eq!(table.lib_id(&rg("rg2")), 1);
    assert_eq!(table.lib_id(&rg("rg3")), 0);
    assert_eq!(table.lib_id(&rg("rg4")), 2);
    assert_eq!(table.lib_id(&rg("rg5")), 3);
    assert_eq!(table.lib_id(&rg("rg6")), 2);
    assert_eq!(table.lib_id(&rg("rg7")), 1);
}

#[test]
fn record_without_a_known_read_group_is_in_library_zero() {
    let table = LibraryTable::new(vec![group("rg1", Some("libA")), group("rg2", Some("libB"))])
        .unwrap();
    assert_eq!(table.lib_id(&None), 0);
    assert_eq!(table.lib_id(&rg("rg9")), 0);
    assert_eq!(table.lib_id(&rg("")), 0);
    assert_eq!(table.lib_id(&rg("rg")), 0);
    assert_eq!(table.lib_id(&rg("rg2")), 1);
}

#[test]
fn header_without_read_groups() {
    let table = LibraryTable::new(Vec::new()).unwrap();
    assert_eq!(table.lib_id(&None), 0);
    assert_eq!(table.lib_id(&rg("rg1")), 0);
}

#[test]
fn byte_strings_are_compared_whole() {
    assert!(bytes_equal(&vec![], &vec![]));
    assert!(bytes_equal(&vec![1, 2, 3], &vec![1, 2, 3]));
    assert!(!bytes_equal(&vec![1, 2, 3], &vec![1, 2]));
    assert!(!bytes_equal(&vec![1, 2], &vec![1, 2, 3]));
    assert!(!bytes_equal(&vec![1, 2, 3], &vec![1, 2, 4]));
}
