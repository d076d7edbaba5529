//! The path guard: confines a requested download path to the root it is
//! resolved against. A request holding a parent-directory segment is
//! rejected outright; the sanitized request is then joined onto the root and
//! the result is checked once more to still start with the root — a
//! deliberate double check against traversal by absolute-path injection.

use vstd::prelude::*;

use crate::entry::lemma_trim_subrange;
use crate::entry::seq_starts_with;
use crate::entry::trim_leading_slashes;

verus! {

/// Why a requested download path was rejected.
#[derive(Clone, Copy, Debug, PartialEq, Eq, Structural)]
pub enum PathReject {
    /// The request holds a parent-directory segment.
    Traversal,
    /// The joined path does not stay under the root.
    OutsideRoot,
    /// No regular file stands at the resolved path.
    NotFound,
}

/// Whether `p` holds a parent-directory segment: a `..` standing alone
/// between separators or the path's ends.
pub open spec fn has_traversal_segment(p: Seq<char>) -> bool {
    exists|i: int|
        {
            &&& 0 <= i
            &&& i + 2 <= p.len()
            &&& #[trigger] p[i] == '.'
            &&& p[i + 1] == '.'
            &&& (i == 0 || p[i - 1] == '/')
            &&& (i + 2 == p.len() || p[i + 2] == '/')
        }
}

/// The request joined onto the root, with exactly one separator between.
pub open spec fn joined(root: Seq<char>, rel: Seq<char>) -> Seq<char> {
    if root.len() > 0 && root.last() == '/' {
        root + rel
    } else {
        root + seq!['/'] + rel
    }
}

/// The path guard's verdict on a request against a root: the request with
/// its leading separators dropped is rejected when it holds a
/// parent-directory segment; otherwise it is joined onto the root, and the
/// result is accepted exactly when it still starts with the root.
pub open spec fn resolve_verdict(root: Seq<char>, requested: Seq<char>) -> Result<
    Seq<char>,
    PathReject,
> {
    let rel = trim_leading_slashes(requested);
    if has_traversal_segment(rel) {
        Err(PathReject::Traversal)
    } else {
        let full = joined(root, rel);
        if seq_starts_with(full, root) {
            Ok(full)
        } else {
            Err(PathReject::OutsideRoot)
        }
    }
}

/// The mathematical value of a resolution result.
pub open spec fn resolved_view(r: Result<String, PathReject>) -> Result<Seq<char>, PathReject> {
    match r {
        Ok(s) => Ok(s@),
        Err(e) => Err(e),
    }
}

/// Whether `p` holds a parent-directory segment.
fn scan_traversal(p: &str) -> (r: bool)
    ensures
        r == has_traversal_segment(p@),
{
    let n = p.unicode_len();
    if n < 2 {
        return false;
    }
    let mut i: usize = 0;
    while i < n - 1
        invariant
            n == p@.len(),
            n >= 2,
            0 <= i <= n - 1,
            forall|j: int|
                0 <= j && j + 2 <= p@.len() && j < i ==> !{
                    &&& #[trigger] p@[j] == '.'
                    &&& p@[j + 1] == '.'
                    &&& (j == 0 || p@[j - 1] == '/')
                    &&& (j + 2 == p@.len() || p@[j + 2] == '/')
                },
        decreases n - i,
    {
        if p.get_char(i) == '.' && p.get_char(i + 1) == '.' {
            let before_ok = i == 0 || p.get_char(i - 1) == '/';
            let after_ok = i + 2 == n || p.get_char(i + 2) == '/';
            if before_ok && after_ok {
                return true;
            }
        }
        i = i + 1;
    }
    false
}

/// Whether `pre` is a prefix of `s`.
fn str_starts_with(s: &str, pre: &str) -> (r: bool)
    ensures
        r == seq_starts_with(s@, pre@),
{
    let n = pre.unicode_len();
    let m = s.unicode_len();
    if m < n {
        proof {
            assert(!seq_starts_with(s@, pre@));
        }
        return false;
    }
    let mut k: usize = 0;
    while k < n
        invariant
            n == pre@.len(),
            m == s@.len(),
            m >= n,
            0 <= k <= n,
            forall|t: int| 0 <= t < k ==> s@[t] == pre@[t],
        decreases n - k,
    {
        if s.get_char(k) != pre.get_char(k) {
            proof {
                assert(s@.subrange(0, n as int)[k as int] != pre@[k as int]);
            }
            return false;
        }
        k = k + 1;
    }
    proof {
        assert(s@.subrange(0, n as int) =~= pre@);
    }
    true
}

/// Resolves a requested download path against a root: rejects a request
/// holding a parent-directory segment, joins the sanitized request onto the
/// root, and re-verifies that the joined path still starts with the root.
pub fn resolve_download_path(root: &str, requested: &str) -> (r: Result<String, PathReject>)
    ensures
        resolved_view(r) == resolve_verdict(root@, requested@),
{
    let m = requested.unicode_len();
    let mut k: usize = 0;
    while k < m && requested.get_char(k) == '/'
        invariant
            m == requested@.len(),
            0 <= k <= m,
            forall|t: int| 0 <= t < k ==> requested@[t] == '/',
        decreases m - k,
    {
        k = k + 1;
    }
    proof {
        lemma_trim_subrange(requested@, 0, k as int);
        assert(requested@.subrange(0, m as int) =~= requested@);
    }
    let rel = requested.substring_char(k, m);
    if scan_traversal(rel) {
        return Err(PathReject::Traversal);
    }
    let n = root.unicode_len();
    let mut full = root.to_owned();
    if n == 0 || root.get_char(n - 1) != '/' {
        full.append("/");
        proof {
            reveal_strlit("/");
            assert(full@ =~= root@ + seq!['/']);
        }
    }
    full.append(rel);
    proof {
        assert(full@ =~= joined(root@, rel@));
    }
    if str_starts_with(full.as_str(), root) {
        Ok(full)
    } else {
        Err(PathReject::OutsideRoot)
    }
}

/// The guard's verdict once the filesystem has said whether a regular file
/// stands at the resolved path: a lexically valid path resolves only to an
/// existing regular file, anything else is rejected as not found.
pub open spec fn download_verdict(
    lexical: Result<Seq<char>, PathReject>,
    is_regular_file: bool,
) -> Result<Seq<char>, PathReject> {
    match lexical {
        Ok(full) => if is_regular_file {
            Ok(full)
        } else {
            Err(PathReject::NotFound)
        },
        Err(e) => Err(e),
    }
}

/// Applies the filesystem's answer to a lexical resolution: the caller asks
/// whether a regular file stands at the resolved path and hands the answer
/// in as `is_regular_file`.
pub fn finish_download_verdict(lexical: Result<String, PathReject>, is_regular_file: bool) -> (r:
    Result<String, PathReject>)
    ensures
        resolved_view(r) == download_verdict(resolved_view(lexical), is_regular_file),
{
    match lexical {
        Ok(full) => if is_regular_file {
            Ok(full)
        } else {
            Err(PathReject::NotFound)
        },
        Err(e) => Err(e),
    }
}

/// A request climbing out of the root with parent-directory segments is
/// rejected against every root.
pub proof fn lemma_traversal_always_rejected(root: Seq<char>)
    ensures
        resolve_verdict(root, "../../etc/passwd"@) == Err::<Seq<char>, PathReject>(
            PathReject::Traversal,
        ),
{
    reveal_strlit("../../etc/passwd");
    let req = "../../etc/passwd"@;
    assert(req[0] != '/');
    assert(trim_leading_slashes(req) == req);
    assert(req[0] == '.' && req[1] == '.' && req[2] == '/');
    assert(has_traversal_segment(req));
}

} // verus!
