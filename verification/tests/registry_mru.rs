use fuzzy_index::registry::Registry;
use fuzzy_index::registry::RootInfo;
use fuzzy_index::registry::RECENT_ROOTS_CAP;

fn info(path: &str, last_indexed_millis: Option<i64>, file_count: usize) -> RootInfo {
    RootInfo { path: path.to_string(), last_indexed_millis, file_count }
}

#[test]
fn touching_a_present_path_updates_and_moves_to_front() {
    let mut reg = Registry::new();
    reg.add_or_touch("/a".to_string(), 1, 100);
    reg.add_or_touch("/b".to_string(), 2, 200);
    reg.add_or_touch("/a".to_string(), 9, 300);
    let list = reg.list();
    assert_eq!(list.len(), 2);
    assert_eq!(list[0].path, "/a");
    assert_eq!(list[0].file_count, 9);
    assert_eq!(list[0].last_indexed_millis, Some(300));
    assert_eq!(list[1].path, "/b");
    assert_eq!(list[1].file_count, 2);
}

#[test]
fn sixth_distinct_path_evicts_the_first() {
    let mut reg = Registry::new();
    let paths = ["/p1", "/p2", "/p3", "/p4", "/p5", "/p6"];
    for (i, p) in paths.iter().enumerate() {
        reg.add_or_touch(p.to_string(), i, i as i64);
    }
    let list = reg.list();
    assert_eq!(list.len(), RECENT_ROOTS_CAP);
    // Most recently used first; the first inserted path is gone.
    assert_eq!(list[0].path, "/p6");
    assert_eq!(list[1].path, "/p5");
    assert_eq!(list[2].path, "/p4");
    assert_eq!(list[3].path, "/p3");
    assert_eq!(list[4].path, "/p2");
    assert!(list.iter().all(|r| r.path != "/p1"));
}

#[test]
fn touching_a_full_registry_does_not_grow_it() {
    let mut reg = Registry::new();
    for i in 0..5 {
        reg.add_or_touch(format!("/r{}", i), i, i as i64);
    }
    reg.add_or_touch("/r2".to_string(), 77, 999);
    let list = reg.list();
    assert_eq!(list.len(), 5);
    assert_eq!(list[0].path, "/r2");
    assert_eq!(list[0].file_count, 77);
}

#[test]
fn paths_lists_most_recent_first() {
    let mut reg = Registry::new();
    reg.add_or_touch("/x".to_string(), 0, 1);
    reg.add_or_touch("/y".to_string(), 0, 2);
    let paths = reg.paths();
    assert_eq!(paths, vec!["/y".to_string(), "/x".to_string()]);
}

#[test]
fn restore_drops_duplicates_and_caps_the_list() {
    let stored = vec![
        info("/a", Some(1), 1),
        info("/b", Some(2), 2),
        info("/a", Some(3), 3),
        info("/c", None, 4),
        info("/d", Some(5), 5),
        info("/e", Some(6), 6),
        info("/f", Some(7), 7),
        info("/g", Some(8), 8),
    ];
    let reg = Registry::restore(stored);
    let list = reg.list();
    assert_eq!(list.len(), 5);
    assert_eq!(list[0].path, "/a");
    assert_eq!(list[0].file_count, 1);
    assert_eq!(list[1].path, "/b");
    assert_eq!(list[2].path, "/c");
    assert_eq!(list[2].last_indexed_millis, None);
    assert_eq!(list[3].path, "/d");
    assert_eq!(list[4].path, "/e");
}

#[test]
fn restore_of_nothing_is_empty() {
    let reg = Registry::restore(Vec::new());
    assert_eq!(reg.list().len(), 0);
    assert_eq!(reg.paths().len(), 0);
}
