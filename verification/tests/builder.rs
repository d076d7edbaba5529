use fuzzy_index::entry::base_name_of;
use fuzzy_index::entry::build_index;
use fuzzy_index::entry::relative_to;
use fuzzy_index::entry::RawFile;

fn raw(path: &str, is_file: bool, size: Option<u64>, modified_millis: Option<i64>) -> RawFile {
    RawFile { path: path.to_string(), is_file, size, modified_millis }
}

#[test]
fn base_name_takes_last_segment() {
    assert_eq!(base_name_of("a/b/c.txt"), "c.txt");
    assert_eq!(base_name_of("plain"), "plain");
    assert_eq!(base_name_of("dir/"), "");
    assert_eq!(base_name_of(""), "");
    assert_eq!(base_name_of("deep/er/est/leaf"), "leaf");
}

#[test]
fn relative_path_strips_root_and_separators() {
    assert_eq!(relative_to("/data", "/data/reports/q1.csv"), "reports/q1.csv");
    assert_eq!(relative_to("/data/", "/data/x"), "x");
    assert_eq!(relative_to("/data", "/data"), "");
    // A path outside the root is kept as it is.
    assert_eq!(relative_to("/data", "/elsewhere/x"), "/elsewhere/x");
    assert_eq!(relative_to("/data", "/dat"), "/dat");
}

#[test]
fn build_keeps_only_regular_files() {
    let raws = vec![
        raw("/r", false, None, None),
        raw("/r/sub", false, Some(4096), Some(7)),
        raw("/r/sub/file.txt", true, Some(10), Some(1000)),
        raw("/r/top.md", true, Some(20), Some(2000)),
    ];
    let index = build_index("/r", &raws, 99);
    assert_eq!(index.len(), 2);
    assert_eq!(index[0].path, "sub/file.txt");
    assert_eq!(index[0].name, "file.txt");
    assert_eq!(index[0].size, 10);
    assert_eq!(index[0].modified_millis, 1000);
    assert_eq!(index[1].path, "top.md");
    assert_eq!(index[1].name, "top.md");
}

#[test]
fn unreadable_metadata_degrades_instead_of_dropping() {
    let raws = vec![raw("/r/ghost.bin", true, None, None)];
    let index = build_index("/r", &raws, 424242);
    assert_eq!(index.len(), 1);
    assert_eq!(index[0].path, "ghost.bin");
    assert_eq!(index[0].size, 0);
    assert_eq!(index[0].modified_millis, 424242);
}

#[test]
fn rebuild_from_same_walk_is_identical() {
    let raws = vec![
        raw("/r/a.txt", true, Some(1), Some(10)),
        raw("/r/b", false, None, None),
        raw("/r/b/c.txt", true, Some(2), Some(20)),
    ];
    let first = build_index("/r", &raws, 111);
    let second = build_index("/r", &raws, 222);
    assert_eq!(first.len(), second.len());
    for (x, y) in first.iter().zip(second.iter()) {
        assert_eq!(x.path, y.path);
        assert_eq!(x.name, y.name);
        assert_eq!(x.size, y.size);
        assert_eq!(x.modified_millis, y.modified_millis);
    }
}
