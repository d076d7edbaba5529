//! The two places where the library touches the world outside: the walk
//! over a root directory, and the clock.

use vstd::prelude::*;

use crate::entry::RawFile;

verus! {

/// Relies on walkdir::WalkDir: walks the directory tree rooted at `root`,
/// yielding for every entry it could visit the entry's path, whether it is a
/// regular file, and its size and modification time where the metadata could
/// be read. Entries the walk cannot read are skipped, and a modification
/// time before the Unix epoch counts as unreadable. What comes back depends
/// on the filesystem at the moment of the walk, so nothing is promised of
/// it.
#[verifier::external_body]
pub(crate) fn walk_root(root: &str) -> (r: Vec<RawFile>) {
    let walk = walkdir::WalkDir::new(root).into_iter().filter_map(|e| e.ok());
    walk.map(|e| {
        let meta = e.metadata().ok();
        RawFile {
            path: e.path().to_string_lossy().into_owned(),
            is_file: e.file_type().is_file(),
            size: meta.as_ref().map(|m| m.len()),
            modified_millis: meta.and_then(|m| m.modified().ok()).and_then(|t|
                t.duration_since(std::time::UNIX_EPOCH).ok()).map(|d| d.as_millis() as i64),
        }
    }).collect()
}

/// Relies on std::time::SystemTime::now: the clock's reading as Unix
/// milliseconds, `0` for a clock before the epoch. What it returns depends
/// on the moment of the call, so nothing is promised of it.
#[verifier::external_body]
pub(crate) fn now_millis() -> i64 {
    match std::time::SystemTime::now().duration_since(std::time::UNIX_EPOCH) {
        Ok(d) => d.as_millis() as i64,
        Err(_) => 0,
    }
}

} // verus!
