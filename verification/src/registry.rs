//! The recent-roots registry: a bounded, most-recently-used-first list of the
//! roots a caller has worked with, unique by path. Adding a root that is
//! already present updates it in place and moves it to the front; adding a
//! new root to a full registry evicts the least recently used one.

use vstd::prelude::*;

verus! {

/// How many roots the registry keeps.
pub const RECENT_ROOTS_CAP: usize = 5;

/// One remembered root: its absolute path, when it was last indexed (if
/// ever), and how many files that index held.
pub struct RootInfo {
    pub path: String,
    pub last_indexed_millis: Option<i64>,
    pub file_count: usize,
}

/// The mathematical value of a `RootInfo`.
pub struct RootInfoV {
    pub path: Seq<char>,
    pub last_indexed_millis: Option<i64>,
    pub file_count: usize,
}

impl View for RootInfo {
    type V = RootInfoV;

    open spec fn view(&self) -> RootInfoV {
        RootInfoV {
            path: self.path@,
            last_indexed_millis: self.last_indexed_millis,
            file_count: self.file_count,
        }
    }
}

impl RootInfo {
    /// An exact copy of the record.
    pub fn duplicate(&self) -> (r: RootInfo)
        ensures
            r@ == self@,
    {
        RootInfo {
            path: self.path.clone(),
            last_indexed_millis: self.last_indexed_millis,
            file_count: self.file_count,
        }
    }
}

/// The values of a list of root records.
pub open spec fn root_views(s: Seq<RootInfo>) -> Seq<RootInfoV> {
    s.map_values(|r: RootInfo| r@)
}

/// No two records share a path.
pub open spec fn unique_paths(s: Seq<RootInfoV>) -> bool {
    forall|i: int, j: int| 0 <= i < j < s.len() ==> s[i].path != s[j].path
}

/// Whether some record in `s` has the path.
pub open spec fn has_path(s: Seq<RootInfoV>, path: Seq<char>) -> bool {
    exists|i: int| 0 <= i < s.len() && s[i].path == path
}

/// The records of `s` whose path is not `path`, in order.
pub open spec fn keep_others(s: Seq<RootInfoV>, path: Seq<char>) -> Seq<RootInfoV>
    decreases s.len(),
{
    if s.len() == 0 {
        s
    } else if s.last().path == path {
        keep_others(s.drop_last(), path)
    } else {
        keep_others(s.drop_last(), path).push(s.last())
    }
}

/// `s` cut down to the registry's capacity.
pub open spec fn capped(s: Seq<RootInfoV>) -> Seq<RootInfoV> {
    if s.len() <= RECENT_ROOTS_CAP as int {
        s
    } else {
        s.subrange(0, RECENT_ROOTS_CAP as int)
    }
}

/// The registry after a root is added or touched: a fresh record at the
/// front, every record with another path behind it in its old order, the
/// whole list cut to capacity.
pub open spec fn touched(s: Seq<RootInfoV>, path: Seq<char>, file_count: usize, now_millis: i64) -> Seq<
    RootInfoV,
> {
    capped(
        seq![
            RootInfoV { path, last_indexed_millis: Some(now_millis), file_count },
        ] + keep_others(s, path),
    )
}

/// When no record has the path, nothing is dropped.
proof fn lemma_keep_others_all(s: Seq<RootInfoV>, path: Seq<char>)
    requires
        forall|k: int| 0 <= k < s.len() ==> (#[trigger] s[k]).path != path,
    ensures
        keep_others(s, path) == s,
    decreases s.len(),
{
    if s.len() == 0 {
    } else {
        assert(forall|k: int|
            0 <= k < s.drop_last().len() ==> (#[trigger] s.drop_last()[k]).path != path);
        lemma_keep_others_all(s.drop_last(), path);
        assert(keep_others(s, path) =~= s);
    }
}

/// When paths are unique and the one record with `path` stands at `i`,
/// keeping the others is removing that record.
proof fn lemma_keep_others_remove(s: Seq<RootInfoV>, path: Seq<char>, i: int)
    requires
        unique_paths(s),
        0 <= i < s.len(),
        s[i].path == path,
    ensures
        keep_others(s, path) == s.remove(i),
    decreases s.len(),
{
    if i == s.len() - 1 {
        assert(s.last().path == path);
        assert(forall|k: int|
            0 <= k < s.drop_last().len() ==> (#[trigger] s.drop_last()[k]).path != path);
        lemma_keep_others_all(s.drop_last(), path);
        assert(keep_others(s, path) =~= s.remove(i));
    } else {
        assert(s.last().path != path);
        assert(unique_paths(s.drop_last()));
        assert(s.drop_last()[i].path == path);
        lemma_keep_others_remove(s.drop_last(), path, i);
        assert(keep_others(s, path) =~= s.remove(i));
    }
}

/// What survives keeps its path away from `path`, stays unique, and comes
/// from `s`.
proof fn lemma_keep_others_props(s: Seq<RootInfoV>, path: Seq<char>)
    requires
        unique_paths(s),
    ensures
        keep_others(s, path).len() <= s.len(),
        forall|k: int|
            0 <= k < keep_others(s, path).len() ==> (#[trigger] keep_others(s, path)[k]).path
                != path,
        unique_paths(keep_others(s, path)),
        forall|k: int|
            0 <= k < keep_others(s, path).len() ==> s.contains(#[trigger] keep_others(s, path)[k]),
    decreases s.len(),
{
    if s.len() == 0 {
    } else {
        assert(unique_paths(s.drop_last()));
        lemma_keep_others_props(s.drop_last(), path);
        assert(forall|k: int|
            0 <= k < s.drop_last().len() ==> s.contains(#[trigger] s.drop_last()[k]));
        let t = keep_others(s, path);
        if s.last().path != path {
            let t0 = keep_others(s.drop_last(), path);
            assert(s[s.len() - 1] == s.last());
            assert forall|i: int, j: int| 0 <= i < j < t.len() implies t[i].path != t[j].path by {
                if j == t.len() - 1 {
                    let a = choose|a: int| 0 <= a < s.drop_last().len() && s.drop_last()[a]
                        == t0[i];
                    assert(s[a] == t[i]);
                    assert(s[a].path != s[s.len() - 1].path);
                }
            }
        }
    }
}

/// The registry: a most-recently-used-first list of at most
/// `RECENT_ROOTS_CAP` roots, unique by path.
pub struct Registry {
    entries: Vec<RootInfo>,
}

impl View for Registry {
    type V = Seq<RootInfoV>;

    closed spec fn view(&self) -> Seq<RootInfoV> {
        root_views(self.entries@)
    }
}

/// Looks up the record with the given path.
fn find_path(v: &Vec<RootInfo>, path: &String) -> (r: Option<usize>)
    ensures
        match r {
            Some(i) => i < v@.len() && v@[i as int]@.path == path@,
            None => forall|k: int| 0 <= k < v@.len() ==> (#[trigger] v@[k]@).path != path@,
        },
{
    let mut i: usize = 0;
    while i < v.len()
        invariant
            0 <= i <= v@.len(),
            forall|k: int| 0 <= k < i ==> (#[trigger] v@[k]@).path != path@,
        decreases v@.len() - i,
    {
        if v[i].path == *path {
            return Some(i);
        }
        i = i + 1;
    }
    None
}

impl Registry {
    /// Well-formed: within capacity and unique by path.
    pub open spec fn wf(&self) -> bool {
        self@.len() <= RECENT_ROOTS_CAP as int && unique_paths(self@)
    }

    /// An empty registry.
    pub fn new() -> (r: Registry)
        ensures
            r@ == Seq::<RootInfoV>::empty(),
            r.wf(),
    {
        let r = Registry { entries: Vec::new() };
        proof {
            assert(r@ =~= Seq::<RootInfoV>::empty());
        }
        r
    }

    /// Records that `path` was just used with `file_count` indexed files:
    /// updates the record in place and moves it to the front when the path is
    /// already present, inserts it at the front otherwise, and evicts the
    /// least recently used record when the registry would overflow.
    pub fn add_or_touch(&mut self, path: String, file_count: usize, now_millis: i64)
        requires
            old(self).wf(),
        ensures
            final(self)@ == touched(old(self)@, path@, file_count, now_millis),
            final(self).wf(),
    {
        let ghost s0 = self@;
        match find_path(&self.entries, &path) {
            Some(i) => {
                proof {
                    assert(s0[i as int] == self.entries@[i as int]@);
                    lemma_keep_others_remove(s0, path@, i as int);
                }
                self.entries.remove(i);
                proof {
                    assert(root_views(self.entries@) =~= keep_others(s0, path@));
                }
            },
            None => {
                proof {
                    assert(forall|k: int| 0 <= k < s0.len() ==> (#[trigger] s0[k]).path != path@);
                    lemma_keep_others_all(s0, path@);
                }
            },
        }
        let ghost kept = self@;
        let fresh = RootInfo { path, last_indexed_millis: Some(now_millis), file_count };
        let ghost fresh_v = fresh@;
        self.entries.insert(0, fresh);
        proof {
            assert(self@ =~= seq![fresh_v] + kept);
        }
        let ghost full = self@;
        if self.entries.len() > RECENT_ROOTS_CAP {
            self.entries.truncate(RECENT_ROOTS_CAP);
            proof {
                assert(self@ =~= full.subrange(0, RECENT_ROOTS_CAP as int));
            }
        }
        proof {
            assert(self@ =~= touched(s0, fresh_v.path, file_count, now_millis));
            lemma_keep_others_props(s0, fresh_v.path);
            assert forall|i: int, j: int| 0 <= i < j < self@.len() implies self@[i].path
                != self@[j].path by {
                assert(full[j] == keep_others(s0, fresh_v.path)[j - 1]);
                if i > 0 {
                    assert(full[i] == keep_others(s0, fresh_v.path)[i - 1]);
                }
            }
        }
    }

    /// The remembered roots, most recently used first.
    pub fn list(&self) -> (r: &Vec<RootInfo>)
        ensures
            root_views(r@) == self@,
    {
        &self.entries
    }

    /// The remembered paths, most recently used first.
    pub fn paths(&self) -> (r: Vec<String>)
        ensures
            r@.len() == self@.len(),
            forall|k: int| 0 <= k < r@.len() ==> (#[trigger] r@[k])@ == self@[k].path,
    {
        let mut out: Vec<String> = Vec::new();
        let mut i: usize = 0;
        while i < self.entries.len()
            invariant
                0 <= i <= self.entries@.len(),
                out@.len() == i,
                forall|k: int| 0 <= k < i ==> (#[trigger] out@[k])@ == self@[k].path,
            decreases self.entries@.len() - i,
        {
            out.push(self.entries[i].path.clone());
            i = i + 1;
        }
        out
    }

    /// Rebuilds a registry from records read back from storage: the first
    /// record of each path is kept in order, later duplicates are dropped,
    /// and the list is cut to capacity, so that a tampered or corrupt record
    /// list still yields a well-formed registry.
    pub fn restore(list: Vec<RootInfo>) -> (r: Registry)
        ensures
            r@ == capped(dedup_paths(root_views(list@))),
            r.wf(),
    {
        let mut entries: Vec<RootInfo> = Vec::new();
        proof {
            assert(root_views(list@.subrange(0, 0)) =~= Seq::<RootInfoV>::empty());
            assert(root_views(entries@) =~= dedup_paths(root_views(list@.subrange(0, 0))));
        }
        let mut i: usize = 0;
        while i < list.len()
            invariant
                0 <= i <= list@.len(),
                root_views(entries@) == dedup_paths(root_views(list@.subrange(0, i as int))),
                unique_paths(root_views(entries@)),
            decreases list@.len() - i,
        {
            proof {
                assert(root_views(list@.subrange(0, i as int + 1)).drop_last() =~= root_views(
                    list@.subrange(0, i as int),
                ));
                assert(root_views(list@.subrange(0, i as int + 1)).last() == list@[i as int]@);
                lemma_dedup_paths_props(root_views(list@.subrange(0, i as int)));
            }
            match find_path(&entries, &list[i].path) {
                Some(j) => {
                    proof {
                        assert(root_views(entries@)[j as int] == entries@[j as int]@);
                        assert(has_path(
                            dedup_paths(root_views(list@.subrange(0, i as int))),
                            list@[i as int]@.path,
                        ));
                        assert(has_path(root_views(list@.subrange(0, i as int)), list@[i as int]@.path));
                    }
                },
                None => {
                    proof {
                        assert(!has_path(
                            dedup_paths(root_views(list@.subrange(0, i as int))),
                            list@[i as int]@.path,
                        ));
                        assert(!has_path(root_views(list@.subrange(0, i as int)), list@[i as int]@.path));
                    }
                    let ghost before = entries@;
                    entries.push(list[i].duplicate());
                    proof {
                        assert(root_views(entries@) =~= root_views(before).push(
                            list@[i as int]@,
                        ));
                        assert forall|a: int, b: int|
                            0 <= a < b < root_views(entries@).len() implies root_views(
                            entries@,
                        )[a].path != root_views(entries@)[b].path by {
                            if b == root_views(entries@).len() - 1 {
                                lemma_dedup_paths_props(root_views(list@.subrange(0, i as int)));
                                assert(has_path(
                                    dedup_paths(root_views(list@.subrange(0, i as int))),
                                    root_views(before)[a].path,
                                ));
                            }
                        }
                    }
                },
            }
            i = i + 1;
        }
        proof {
            assert(list@.subrange(0, list@.len() as int) =~= list@);
        }
        if entries.len() > RECENT_ROOTS_CAP {
            let ghost full = root_views(entries@);
            entries.truncate(RECENT_ROOTS_CAP);
            proof {
                assert(root_views(entries@) =~= full.subrange(0, RECENT_ROOTS_CAP as int));
            }
        }
        let r = Registry { entries };
        r
    }
}

/// `s` with every record whose path appeared earlier dropped.
pub open spec fn dedup_paths(s: Seq<RootInfoV>) -> Seq<RootInfoV>
    decreases s.len(),
{
    if s.len() == 0 {
        s
    } else if has_path(s.drop_last(), s.last().path) {
        dedup_paths(s.drop_last())
    } else {
        dedup_paths(s.drop_last()).push(s.last())
    }
}

/// Deduplication keeps exactly the paths of `s`, uniquely.
proof fn lemma_dedup_paths_props(s: Seq<RootInfoV>)
    ensures
        unique_paths(dedup_paths(s)),
        forall|p: Seq<char>| has_path(dedup_paths(s), p) == has_path(s, p),
        dedup_paths(s).len() <= s.len(),
    decreases s.len(),
{
    if s.len() == 0 {
    } else {
        lemma_dedup_paths_props(s.drop_last());
        let t = dedup_paths(s);
        let t0 = dedup_paths(s.drop_last());
        assert forall|p: Seq<char>| has_path(t, p) == has_path(s, p) by {
            if has_path(s.drop_last(), s.last().path) {
                if has_path(s, p) {
                    let a = choose|a: int| 0 <= a < s.len() && s[a].path == p;
                    if a == s.len() - 1 {
                        assert(has_path(s.drop_last(), p));
                    } else {
                        assert(s.drop_last()[a].path == p);
                        assert(has_path(s.drop_last(), p));
                    }
                    assert(has_path(t0, p));
                }
                if has_path(t, p) {
                    assert(has_path(t0, p));
                    assert(has_path(s.drop_last(), p));
                    let a = choose|a: int| 0 <= a < s.drop_last().len() && s.drop_last()[a].path
                        == p;
                    assert(s[a].path == p);
                }
            } else {
                if has_path(s, p) {
                    let a = choose|a: int| 0 <= a < s.len() && s[a].path == p;
                    if a == s.len() - 1 {
                        assert(t[t.len() - 1].path == p);
                    } else {
                        assert(s.drop_last()[a].path == p);
                        assert(has_path(s.drop_last(), p));
                        assert(has_path(t0, p));
                        let b = choose|b: int| 0 <= b < t0.len() && t0[b].path == p;
                        assert(t[b].path == p);
                    }
                }
                if has_path(t, p) {
                    let a = choose|a: int| 0 <= a < t.len() && t[a].path == p;
                    if a == t.len() - 1 {
                        assert(s[s.len() - 1].path == p);
                    } else {
                        assert(t0[a].path == p);
                        assert(has_path(s.drop_last(), p));
                        let b = choose|b: int| 0 <= b < s.drop_last().len() && s.drop_last()[b].path
                            == p;
                        assert(s[b].path == p);
                    }
                }
            }
        }
        if !has_path(s.drop_last(), s.last().path) {
            assert forall|i: int, j: int| 0 <= i < j < t.len() implies t[i].path != t[j].path by {
                if j == t.len() - 1 {
                    assert(has_path(t0, t[i].path));
                    assert(has_path(s.drop_last(), t[i].path));
                }
            }
        }
    }
}

/// Six distinct roots added in turn to an empty registry: the length stays at
/// the cap, the first root is evicted, and the other five remain, most
/// recently used first.
pub proof fn lemma_sixth_root_evicts_oldest(
    ps: Seq<Seq<char>>,
    cs: Seq<usize>,
    ts: Seq<i64>,
)
    requires
        ps.len() == 6,
        cs.len() == 6,
        ts.len() == 6,
        forall|i: int, j: int| 0 <= i < j < 6 ==> ps[i] != ps[j],
    ensures
        ({
            let s1 = touched(Seq::<RootInfoV>::empty(), ps[0], cs[0], ts[0]);
            let s2 = touched(s1, ps[1], cs[1], ts[1]);
            let s3 = touched(s2, ps[2], cs[2], ts[2]);
            let s4 = touched(s3, ps[3], cs[3], ts[3]);
            let s5 = touched(s4, ps[4], cs[4], ts[4]);
            let s6 = touched(s5, ps[5], cs[5], ts[5]);
            &&& s6.len() == 5
            &&& (forall|k: int| 0 <= k < 5 ==> (#[trigger] s6[k]).path == ps[5 - k])
            &&& (forall|k: int| 0 <= k < 5 ==> (#[trigger] s6[k]).path != ps[0])
        }),
{
    let n0 = RootInfoV { path: ps[0], last_indexed_millis: Some(ts[0]), file_count: cs[0] };
    let n1 = RootInfoV { path: ps[1], last_indexed_millis: Some(ts[1]), file_count: cs[1] };
    let n2 = RootInfoV { path: ps[2], last_indexed_millis: Some(ts[2]), file_count: cs[2] };
    let n3 = RootInfoV { path: ps[3], last_indexed_millis: Some(ts[3]), file_count: cs[3] };
    let n4 = RootInfoV { path: ps[4], last_indexed_millis: Some(ts[4]), file_count: cs[4] };
    let n5 = RootInfoV { path: ps[5], last_indexed_millis: Some(ts[5]), file_count: cs[5] };
    let s1 = touched(Seq::<RootInfoV>::empty(), ps[0], cs[0], ts[0]);
    lemma_keep_others_all(Seq::<RootInfoV>::empty(), ps[0]);
    assert(s1 =~= seq![n0]);
    let s2 = touched(s1, ps[1], cs[1], ts[1]);
    lemma_keep_others_all(s1, ps[1]);
    assert(s2 =~= seq![n1, n0]);
    let s3 = touched(s2, ps[2], cs[2], ts[2]);
    lemma_keep_others_all(s2, ps[2]);
    assert(s3 =~= seq![n2, n1, n0]);
    let s4 = touched(s3, ps[3], cs[3], ts[3]);
    lemma_keep_others_all(s3, ps[3]);
    assert(s4 =~= seq![n3, n2, n1, n0]);
    let s5 = touched(s4, ps[4], cs[4], ts[4]);
    lemma_keep_others_all(s4, ps[4]);
    assert(s5 =~= seq![n4, n3, n2, n1, n0]);
    let s6 = touched(s5, ps[5], cs[5], ts[5]);
    lemma_keep_others_all(s5, ps[5]);
    assert(s6 =~= seq![n5, n4, n3, n2, n1]);
}

} // verus!
