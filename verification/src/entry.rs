//! The entry model and the index builder: one `Entry` per indexed regular
//! file, and the pure construction of an index from the raw results of a
//! directory walk.

use vstd::prelude::*;

verus! {

/// One indexed file: its path relative to the root, its base name, its
/// last-modified time in Unix milliseconds, and its size in bytes.
pub struct Entry {
    pub path: String,
    pub name: String,
    pub modified_millis: i64,
    pub size: u64,
}

/// The mathematical value of an `Entry`.
pub struct EntryV {
    pub path: Seq<char>,
    pub name: Seq<char>,
    pub modified_millis: i64,
    pub size: u64,
}

impl View for Entry {
    type V = EntryV;

    open spec fn view(&self) -> EntryV {
        EntryV {
            path: self.path@,
            name: self.name@,
            modified_millis: self.modified_millis,
            size: self.size,
        }
    }
}

impl Entry {
    /// An exact copy of the entry.
    pub fn duplicate(&self) -> (r: Entry)
        ensures
            r@ == self@,
    {
        Entry {
            path: self.path.clone(),
            name: self.name.clone(),
            modified_millis: self.modified_millis,
            size: self.size,
        }
    }
}

/// The values of a list of entries.
pub open spec fn entry_views(s: Seq<Entry>) -> Seq<EntryV> {
    s.map_values(|e: Entry| e@)
}

/// One raw result of a directory walk, before it becomes an entry: the
/// visited path, whether it is a regular file, and its size and modification
/// time where the metadata could be read.
pub struct RawFile {
    pub path: String,
    pub is_file: bool,
    pub size: Option<u64>,
    pub modified_millis: Option<i64>,
}

/// The mathematical value of a `RawFile`.
pub struct RawFileV {
    pub path: Seq<char>,
    pub is_file: bool,
    pub size: Option<u64>,
    pub modified_millis: Option<i64>,
}

impl View for RawFile {
    type V = RawFileV;

    open spec fn view(&self) -> RawFileV {
        RawFileV {
            path: self.path@,
            is_file: self.is_file,
            size: self.size,
            modified_millis: self.modified_millis,
        }
    }
}

/// The values of a list of raw walk results.
pub open spec fn raw_views(s: Seq<RawFile>) -> Seq<RawFileV> {
    s.map_values(|r: RawFile| r@)
}

/// The base name of a path: everything after its last `/`, the whole path
/// when it holds none.
pub open spec fn base_name(p: Seq<char>) -> Seq<char>
    decreases p.len(),
{
    if p.len() == 0 {
        p
    } else if p.last() == '/' {
        Seq::empty()
    } else {
        base_name(p.drop_last()).push(p.last())
    }
}

/// When every character from `i` on differs from `/` and the one just before
/// `i` (if any) is `/`, the base name is the suffix starting at `i`.
proof fn lemma_base_name_subrange(p: Seq<char>, i: int)
    requires
        0 <= i <= p.len(),
        forall|k: int| i <= k < p.len() ==> p[k] != '/',
        i > 0 ==> p[i - 1] == '/',
    ensures
        base_name(p) == p.subrange(i, p.len() as int),
    decreases p.len(),
{
    if p.len() == 0 {
        assert(base_name(p) =~= p.subrange(0, 0));
    } else if i == p.len() {
        assert(p.last() == '/');
        assert(base_name(p) =~= p.subrange(i, p.len() as int));
    } else {
        assert(p.last() != '/');
        lemma_base_name_subrange(p.drop_last(), i);
        assert(base_name(p) =~= p.subrange(i, p.len() as int));
    }
}

/// The base name of `path`.
pub fn base_name_of(path: &str) -> (r: String)
    ensures
        r@ == base_name(path@),
{
    let n = path.unicode_len();
    let mut i = n;
    while i > 0 && path.get_char(i - 1) != '/'
        invariant
            n == path@.len(),
            0 <= i <= n,
            forall|k: int| i <= k < n ==> path@[k] != '/',
        decreases i,
    {
        i = i - 1;
    }
    proof {
        lemma_base_name_subrange(path@, i as int);
    }
    let tail = path.substring_char(i, n);
    tail.to_owned()
}

/// Whether `pre` is a prefix of `p`.
pub open spec fn seq_starts_with(p: Seq<char>, pre: Seq<char>) -> bool {
    p.len() >= pre.len() && p.subrange(0, pre.len() as int) == pre
}

/// `p` with every leading `/` removed.
pub open spec fn trim_leading_slashes(p: Seq<char>) -> Seq<char>
    decreases p.len(),
{
    if p.len() > 0 && p[0] == '/' {
        trim_leading_slashes(p.drop_first())
    } else {
        p
    }
}

/// A walked path relative to its root: the root prefix and the separators
/// after it removed where the path lies under the root, the path unchanged
/// where it does not.
pub open spec fn rel_to_root(root: Seq<char>, p: Seq<char>) -> Seq<char> {
    if seq_starts_with(p, root) {
        trim_leading_slashes(p.subrange(root.len() as int, p.len() as int))
    } else {
        p
    }
}

/// Trimming the suffix of `p` from `a` on equals the suffix from `i` on when
/// the characters in between are all `/` and the one at `i` (if any) is not.
pub proof fn lemma_trim_subrange(p: Seq<char>, a: int, i: int)
    requires
        0 <= a <= i <= p.len(),
        forall|k: int| a <= k < i ==> p[k] == '/',
        i < p.len() ==> p[i] != '/',
    ensures
        trim_leading_slashes(p.subrange(a, p.len() as int)) == p.subrange(i, p.len() as int),
    decreases i - a,
{
    if a == i {
        if a < p.len() {
            assert(p.subrange(a, p.len() as int)[0] == p[a]);
        }
    } else {
        assert(p.subrange(a, p.len() as int)[0] == p[a]);
        assert(p.subrange(a, p.len() as int).drop_first() =~= p.subrange(a + 1, p.len() as int));
        lemma_trim_subrange(p, a + 1, i);
    }
}

/// The path `p` made relative to `root`.
pub fn relative_to(root: &str, p: &str) -> (r: String)
    ensures
        r@ == rel_to_root(root@, p@),
{
    let n = root.unicode_len();
    let m = p.unicode_len();
    if m < n {
        proof {
            assert(!seq_starts_with(p@, root@));
        }
        return p.to_owned();
    }
    let mut k: usize = 0;
    while k < n
        invariant
            n == root@.len(),
            m == p@.len(),
            m >= n,
            0 <= k <= n,
            forall|t: int| 0 <= t < k ==> p@[t] == root@[t],
        decreases n - k,
    {
        if p.get_char(k) != root.get_char(k) {
            proof {
                assert(p@.subrange(0, n as int)[k as int] != root@[k as int]);
                assert(!seq_starts_with(p@, root@));
            }
            return p.to_owned();
        }
        k = k + 1;
    }
    proof {
        assert(p@.subrange(0, n as int) =~= root@);
    }
    let mut i: usize = n;
    while i < m && p.get_char(i) == '/'
        invariant
            n == root@.len(),
            m == p@.len(),
            n <= i <= m,
            forall|t: int| n <= t < i ==> p@[t] == '/',
        decreases m - i,
    {
        i = i + 1;
    }
    proof {
        lemma_trim_subrange(p@, n as int, i as int);
    }
    let tail = p.substring_char(i, m);
    tail.to_owned()
}

/// The entry built from one raw walk result: the path made relative to the
/// root, the base name derived from it, the walk's timestamp or `now` where
/// the metadata was unreadable, and the size or `0` likewise.
pub open spec fn entry_of(raw: RawFileV, root: Seq<char>, now: i64) -> EntryV {
    let rel = rel_to_root(root, raw.path);
    EntryV {
        path: rel,
        name: base_name(rel),
        modified_millis: match raw.modified_millis {
            Some(t) => t,
            None => now,
        },
        size: match raw.size {
            Some(s) => s,
            None => 0,
        },
    }
}

/// The index built from a walk: one entry per regular file, in walk order;
/// directories and other non-files are left out.
pub open spec fn built_entries(raw: Seq<RawFileV>, root: Seq<char>, now: i64) -> Seq<EntryV>
    decreases raw.len(),
{
    if raw.len() == 0 {
        Seq::empty()
    } else {
        let rest = built_entries(raw.drop_last(), root, now);
        if raw.last().is_file {
            rest.push(entry_of(raw.last(), root, now))
        } else {
            rest
        }
    }
}

/// Builds the index for `root` from the raw results of a walk. A raw result
/// whose metadata could not be read is still indexed, with `now` as its
/// timestamp and `0` as its size, rather than dropped.
pub fn build_index(root: &str, raw: &Vec<RawFile>, now: i64) -> (r: Vec<Entry>)
    ensures
        entry_views(r@) == built_entries(raw_views(raw@), root@, now),
{
    let mut out: Vec<Entry> = Vec::new();
    proof {
        assert(raw_views(raw@.subrange(0, 0)) =~= Seq::<RawFileV>::empty());
        assert(entry_views(out@) =~= Seq::<EntryV>::empty());
    }
    let mut i: usize = 0;
    while i < raw.len()
        invariant
            0 <= i <= raw.len(),
            entry_views(out@) == built_entries(raw_views(raw@.subrange(0, i as int)), root@, now),
        decreases raw.len() - i,
    {
        proof {
            assert(raw_views(raw@.subrange(0, i as int + 1)).drop_last() =~= raw_views(
                raw@.subrange(0, i as int),
            ));
            assert(raw_views(raw@.subrange(0, i as int + 1)).last() == raw@[i as int]@);
        }
        let rf = &raw[i];
        if rf.is_file {
            let rel = relative_to(root, rf.path.as_str());
            let name = base_name_of(rel.as_str());
            let modified_millis = match rf.modified_millis {
                Some(t) => t,
                None => now,
            };
            let size = match rf.size {
                Some(s) => s,
                None => 0,
            };
            let e = Entry { path: rel, name, modified_millis, size };
            out.push(e);
            proof {
                assert(entry_views(out@) =~= entry_views(out@.drop_last()).push(out@.last()@));
            }
        }
        i = i + 1;
    }
    proof {
        assert(raw@.subrange(0, raw@.len() as int) =~= raw@);
    }
    out
}

/// Two builds from the same walk agree entry-for-entry on path, name and
/// size, and on the timestamp wherever the walk could read one: a rebuild
/// with no filesystem changes reproduces the index.
pub proof fn lemma_build_deterministic(raw: Seq<RawFileV>, root: Seq<char>, now1: i64, now2: i64)
    ensures
        built_entries(raw, root, now1).len() == built_entries(raw, root, now2).len(),
        forall|i: int|
            0 <= i < built_entries(raw, root, now1).len() ==> {
                &&& (#[trigger] built_entries(raw, root, now1)[i]).path == built_entries(
                    raw,
                    root,
                    now2,
                )[i].path
                &&& built_entries(raw, root, now1)[i].name == built_entries(raw, root, now2)[i].name
                &&& built_entries(raw, root, now1)[i].size == built_entries(raw, root, now2)[i].size
            },
        (forall|k: int| 0 <= k < raw.len() ==> (#[trigger] raw[k].modified_millis) is Some)
            ==> built_entries(raw, root, now1) == built_entries(raw, root, now2),
    decreases raw.len(),
{
    if raw.len() == 0 {
    } else {
        lemma_build_deterministic(raw.drop_last(), root, now1, now2);
        if (forall|k: int| 0 <= k < raw.len() ==> (#[trigger] raw[k].modified_millis) is Some) {
            assert(forall|k: int|
                0 <= k < raw.drop_last().len() ==> (#[trigger] raw.drop_last()[k].modified_millis)
                    is Some);
            assert(built_entries(raw, root, now1) =~= built_entries(raw, root, now2));
        }
    }
}

} // verus!
