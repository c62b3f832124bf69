use dupfinder::digest::hash_file;
use dupfinder::record::{DuplicateIndex, FileInfo};
use std::path::PathBuf;

fn path(text: &str) -> PathBuf {
    PathBuf::from(text)
}

#[test]
fn a_new_record_holds_one_path() {
    let info = FileInfo::new(path("a/x.txt"), 5);
    assert_eq!(info.paths(), &vec![path("a/x.txt")]);
    assert_eq!(info.size(), 5);
}

#[test]
fn paths_are_added_at_the_end() {
    let mut info = FileInfo::new(path("a/x.txt"), 5);
    info.add_path(path("b/y.txt"));
    info.add_path(path("a/a.txt"));
    assert_eq!(info.paths(), &vec![path("a/x.txt"), path("b/y.txt"), path("a/a.txt")]);
    assert_eq!(info.size(), 5);
}

#[test]
fn a_path_can_be_added_twice() {
    let mut info = FileInfo::new(path("x"), 0);
    info.add_path(path("x"));
    assert_eq!(info.paths().len(), 2);
    assert_eq!(info.size(), 0);
}

#[test]
fn a_new_index_is_empty() {
    let index = DuplicateIndex::new();
    assert_eq!(index.len(), 0);
    assert!(!index.contains_key(&hash_file(b"hello").0));
    assert!(index.get(&hash_file(b"hello").0).is_none());
    assert!(index.into_entries().is_empty());
}

#[test]
fn a_new_digest_gets_a_record() {
    let mut index = DuplicateIndex::new();
    let (hash, size) = hash_file(b"hello");
    index.record(hash, path("a/x.txt"), size);
    assert_eq!(index.len(), 1);
    assert!(index.contains_key(&hash));
    let info = index.get(&hash).unwrap();
    assert_eq!(info.paths(), &vec![path("a/x.txt")]);
    assert_eq!(info.size(), 5);
    assert!(!index.contains_key(&hash_file(b"world").0));
}

#[test]
fn a_known_digest_gets_the_path() {
    let mut index = DuplicateIndex::new();
    let (hash, size) = hash_file(b"hello");
    index.record(hash, path("a/x.txt"), size);
    index.record(hash_file(b"world").0, path("c/z.txt"), 5);
    index.record(hash, path("b/y.txt"), size);
    assert_eq!(index.len(), 2);
    let info = index.get(&hash).unwrap();
    assert_eq!(info.paths(), &vec![path("a/x.txt"), path("b/y.txt")]);
    let other = index.get(&hash_file(b"world").0).unwrap();
    assert_eq!(other.paths(), &vec![path("c/z.txt")]);
}

#[test]
fn the_size_of_a_record_is_not_looked_at_again() {
    let mut index = DuplicateIndex::new();
    let hash = hash_file(b"hello").0;
    index.record(hash, path("first"), 5);
    index.record(hash, path("second"), 77);
    let info = index.get(&hash).unwrap();
    assert_eq!(info.size(), 5);
    assert_eq!(info.paths().len(), 2);
}

#[test]
fn records_keep_the_order_of_discovery() {
    let mut index = DuplicateIndex::new();
    let names = ["one", "two", "three", "four"];
    for name in names {
        index.record(hash_file(name.as_bytes()).0, path(name), name.len());
    }
    index.record(hash_file(b"two").0, path("two again"), 3);
    assert_eq!(index.len(), 4);
    for (i, name) in names.iter().enumerate() {
        let (hash, info) = index.entry(i);
        assert_eq!(hash, hash_file(name.as_bytes()).0);
        assert_eq!(info.paths()[0], path(name));
        assert_eq!(info.size(), name.len());
    }
    assert_eq!(index.entry(1).1.paths(), &vec![path("two"), path("two again")]);
    let entries = index.into_entries();
    assert_eq!(entries.len(), 4);
    assert_eq!(entries[0].0, hash_file(b"one").0);
    assert_eq!(entries[1].1.paths().len(), 2);
    assert_eq!(entries[3].1.paths(), &vec![path("four")]);
}

#[test]
fn digests_that_differ_in_the_last_byte_have_two_records() {
    let mut index = DuplicateIndex::new();
    let mut bytes = [9u8; 32];
    let first = dupfinder::digest::Hash::new(&bytes);
    bytes[31] = 8;
    let second = dupfinder::digest::Hash::new(&bytes);
    index.record(first, path("p"), 1);
    index.record(second, path("q"), 1);
    assert_eq!(index.len(), 2);
    assert_eq!(index.get(&first).unwrap().paths(), &vec![path("p")]);
    assert_eq!(index.get(&second).unwrap().paths(), &vec![path("q")]);
}
