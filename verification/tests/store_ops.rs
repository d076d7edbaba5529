use std::io::Write;

use fuzzy_index::entry::Entry;
use fuzzy_index::store::IndexStore;

fn entry(path: &str, size: u64) -> Entry {
    Entry {
        path: path.to_string(),
        name: path.rsplit('/').next().unwrap_or("").to_string(),
        modified_millis: 0,
        size,
    }
}

#[test]
fn fresh_store_has_an_empty_active_index() {
    let store = IndexStore::new("/nowhere".to_string());
    assert_eq!(store.active_root_path(), "/nowhere");
    assert_eq!(store.active_file_count(), 0);
    assert_eq!(store.query("").len(), 0);
}

#[test]
fn switching_back_reflects_the_kept_index_not_an_empty_one() {
    let mut store = IndexStore::new("/a".to_string());
    store.install_index("/b", vec![entry("x/one.txt", 1), entry("y/two.txt", 2)]);

    // Switch to the already-indexed root: no snapshot is needed.
    let count = store.set_active_root("/b".to_string(), None);
    assert_eq!(count, 2);
    let hits = store.query("");
    assert_eq!(hits.len(), 2);
    assert_eq!(hits[0].path, "x/one.txt");
    assert_eq!(hits[1].path, "y/two.txt");

    // Switch away and back again: the index for "/b" is still there.
    store.set_active_root("/a".to_string(), None);
    assert_eq!(store.query("").len(), 0);
    let count_back = store.set_active_root("/b".to_string(), None);
    assert_eq!(count_back, 2);
    assert_eq!(store.query("").len(), 2);
}

#[test]
fn switching_to_a_new_root_loads_the_snapshot() {
    let mut store = IndexStore::new("/a".to_string());
    let snapshot = vec![entry("kept/from/disk.txt", 7)];
    let count = store.set_active_root("/b".to_string(), Some(snapshot));
    assert_eq!(count, 1);
    let hits = store.query("");
    assert_eq!(hits.len(), 1);
    assert_eq!(hits[0].path, "kept/from/disk.txt");
    assert_eq!(hits[0].size, 7);
}

#[test]
fn a_snapshot_never_overwrites_an_index_held_in_memory() {
    let mut store = IndexStore::new("/a".to_string());
    store.install_index("/b", vec![entry("fresh.txt", 1)]);
    let count = store.set_active_root(
        "/b".to_string(),
        Some(vec![entry("stale1.txt", 0), entry("stale2.txt", 0)]),
    );
    assert_eq!(count, 1);
    assert_eq!(store.query("")[0].path, "fresh.txt");
}

#[test]
fn install_replaces_one_index_wholesale_and_no_other() {
    let mut store = IndexStore::new("/a".to_string());
    store.install_index("/a", vec![entry("old.txt", 1)]);
    store.install_index("/b", vec![entry("other.txt", 2)]);
    store.install_index("/a", vec![entry("new1.txt", 3), entry("new2.txt", 4)]);
    assert_eq!(store.active_file_count(), 2);
    let hits = store.query("");
    assert_eq!(hits[0].path, "new1.txt");
    assert_eq!(hits[1].path, "new2.txt");
    store.set_active_root("/b".to_string(), None);
    assert_eq!(store.query("")[0].path, "other.txt");
}

#[test]
fn query_ranks_the_active_index() {
    let mut store = IndexStore::new("/r".to_string());
    store.install_index(
        "/r",
        vec![entry("zmzazizn", 0), entry("src/main", 0), entry("unrelated", 0)],
    );
    let hits = store.query("main");
    assert_eq!(hits.len(), 2);
    assert_eq!(hits[0].path, "src/main");
    assert_eq!(hits[1].path, "zmzazizn");
}

#[test]
fn rebuild_walks_the_filesystem() {
    let dir = tempfile::tempdir().expect("temp dir");
    let root = dir.path().to_str().expect("utf8 root").to_string();
    let mut one = tempfile::NamedTempFile::new_in(dir.path()).expect("file one");
    one.write_all(b"hello").expect("write one");
    let mut two = tempfile::NamedTempFile::new_in(dir.path()).expect("file two");
    two.write_all(b"world, wide").expect("write two");

    let mut store = IndexStore::new(root.clone());
    let status = store.rebuild(&root);
    assert_eq!(status.root, root);
    assert_eq!(status.file_count, 2);
    assert_eq!(store.active_file_count(), 2);

    let names: Vec<String> = store.query("").iter().map(|e| e.name.clone()).collect();
    let one_name = one.path().file_name().unwrap().to_str().unwrap().to_string();
    let two_name = two.path().file_name().unwrap().to_str().unwrap().to_string();
    assert!(names.contains(&one_name));
    assert!(names.contains(&two_name));

    // Relative paths hold no root prefix and sizes come from the metadata.
    for e in store.query("") {
        assert!(!e.path.starts_with(&root));
        assert!(!e.path.starts_with('/'));
        if e.name == one_name {
            assert_eq!(e.size, 5);
        }
        if e.name == two_name {
            assert_eq!(e.size, 11);
        }
    }
}

#[test]
fn rebuilding_twice_with_no_changes_yields_the_same_entries() {
    let dir = tempfile::tempdir().expect("temp dir");
    let root = dir.path().to_str().expect("utf8 root").to_string();
    let sub = tempfile::tempdir_in(dir.path()).expect("sub dir");
    let mut one = tempfile::NamedTempFile::new_in(dir.path()).expect("file one");
    one.write_all(b"abc").expect("write one");
    let mut two = tempfile::NamedTempFile::new_in(sub.path()).expect("file two");
    two.write_all(b"defg").expect("write two");

    let mut store = IndexStore::new(root.clone());
    let first_status = store.rebuild(&root);
    let mut first: Vec<(String, String, u64)> =
        store.query("").iter().map(|e| (e.path.clone(), e.name.clone(), e.size)).collect();
    let second_status = store.rebuild(&root);
    let mut second: Vec<(String, String, u64)> =
        store.query("").iter().map(|e| (e.path.clone(), e.name.clone(), e.size)).collect();

    assert_eq!(first_status.file_count, 2);
    assert_eq!(second_status.file_count, 2);
    first.sort();
    second.sort();
    assert_eq!(first, second);
}
