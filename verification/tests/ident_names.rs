use fuzzy_index::ident::root_identifier;
use fuzzy_index::ident::snapshot_file_name;

#[test]
fn root_identifier_is_the_hex_md5_of_the_path() {
    let expected = format!("{:x}", md5::compute("/data".as_bytes()));
    assert_eq!(root_identifier("/data"), expected);
    assert_eq!(root_identifier("/data").len(), 32);
}

#[test]
fn root_identifier_is_stable_and_separates_paths() {
    assert_eq!(root_identifier("/home/me"), root_identifier("/home/me"));
    assert_ne!(root_identifier("/home/me"), root_identifier("/home/you"));
    assert_ne!(root_identifier(""), root_identifier("/"));
}

#[test]
fn snapshot_file_name_wraps_the_identifier() {
    let expected = format!("index_{:x}.json", md5::compute("/srv/share".as_bytes()));
    assert_eq!(snapshot_file_name("/srv/share"), expected);
}
