use fuzzy_index::guard::finish_download_verdict;
use fuzzy_index::guard::resolve_download_path;
use fuzzy_index::guard::PathReject;

#[test]
fn parent_traversal_is_rejected_against_any_root() {
    assert_eq!(
        resolve_download_path("/data", "../../etc/passwd"),
        Err(PathReject::Traversal)
    );
    assert_eq!(
        resolve_download_path("/srv/files", "../../etc/passwd"),
        Err(PathReject::Traversal)
    );
    assert_eq!(resolve_download_path("", "../../etc/passwd"), Err(PathReject::Traversal));
}

#[test]
fn traversal_anywhere_in_the_request_is_rejected() {
    assert_eq!(resolve_download_path("/data", ".."), Err(PathReject::Traversal));
    assert_eq!(resolve_download_path("/data", "../"), Err(PathReject::Traversal));
    assert_eq!(resolve_download_path("/data", "a/../b"), Err(PathReject::Traversal));
    assert_eq!(resolve_download_path("/data", "a/b/.."), Err(PathReject::Traversal));
    assert_eq!(resolve_download_path("/data", "/../x"), Err(PathReject::Traversal));
}

#[test]
fn dots_inside_names_are_no_traversal() {
    assert_eq!(
        resolve_download_path("/data", "a..b/c"),
        Ok("/data/a..b/c".to_string())
    );
    assert_eq!(resolve_download_path("/data", "..."), Ok("/data/...".to_string()));
    assert_eq!(
        resolve_download_path("/data", "notes/v1..2.txt"),
        Ok("/data/notes/v1..2.txt".to_string())
    );
}

#[test]
fn valid_request_resolves_under_the_root() {
    assert_eq!(
        resolve_download_path("/data", "reports/q1.csv"),
        Ok("/data/reports/q1.csv".to_string())
    );
    // Leading separators are stripped before joining.
    assert_eq!(
        resolve_download_path("/data", "/reports/q1.csv"),
        Ok("/data/reports/q1.csv".to_string())
    );
    // A root with a trailing separator gains no second one.
    assert_eq!(resolve_download_path("/data/", "x"), Ok("/data/x".to_string()));
}

#[test]
fn resolved_path_serves_only_an_existing_regular_file() {
    let lexical = resolve_download_path("/data", "reports/q1.csv");
    assert_eq!(
        finish_download_verdict(lexical.clone(), true),
        Ok("/data/reports/q1.csv".to_string())
    );
    assert_eq!(
        finish_download_verdict(lexical, false),
        Err(PathReject::NotFound)
    );
    assert_eq!(
        finish_download_verdict(Err(PathReject::Traversal), true),
        Err(PathReject::Traversal)
    );
}
