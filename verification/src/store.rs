//! The index store: one index per root, an active-root pointer, and the
//! operations a caller drives it with — rebuild a root's index from a fresh
//! walk, switch the active root without losing the other indices, and answer
//! fuzzy queries against the active root's index.

use vstd::prelude::*;
use vstd::pervasive::VecAdditionalExecFns;

use crate::entry::Entry;
use crate::entry::EntryV;
use crate::entry::RawFileV;
use crate::entry::build_index;
use crate::entry::built_entries;
use crate::entry::entry_views;
use crate::entry::raw_views;
use crate::fuzzy::rank_entries;
use crate::fuzzy::ranked;
use crate::fuzzy::lemma_empty_query_returns_all;
use crate::walk::now_millis;
use crate::walk::walk_root;

verus! {

/// One root's slot in the store: the root's path and its index.
pub struct RootSlot {
    pub root: String,
    pub entries: Vec<Entry>,
}

/// The mathematical value of a `RootSlot`.
pub struct RootSlotV {
    pub root: Seq<char>,
    pub entries: Seq<EntryV>,
}

impl View for RootSlot {
    type V = RootSlotV;

    open spec fn view(&self) -> RootSlotV {
        RootSlotV { root: self.root@, entries: entry_views(self.entries@) }
    }
}

/// The values of a list of slots.
pub open spec fn slot_views(s: Seq<RootSlot>) -> Seq<RootSlotV> {
    s.map_values(|x: RootSlot| x@)
}

/// The index stored for `root`: the entries of the first slot with that
/// root, `None` when no slot has it.
pub open spec fn lookup(s: Seq<RootSlotV>, root: Seq<char>) -> Option<Seq<EntryV>>
    decreases s.len(),
{
    if s.len() == 0 {
        None
    } else if s[0].root == root {
        Some(s[0].entries)
    } else {
        lookup(s.drop_first(), root)
    }
}

/// No two slots share a root.
pub open spec fn unique_roots(s: Seq<RootSlotV>) -> bool {
    forall|i: int, j: int| 0 <= i < j < s.len() ==> s[i].root != s[j].root
}

/// The slots after the index for `root` is replaced: the one slot with that
/// root carries the new entries, a new slot is appended when none had it.
pub open spec fn installed(s: Seq<RootSlotV>, root: Seq<char>, entries: Seq<EntryV>) -> Seq<
    RootSlotV,
>
    decreases s.len(),
{
    if s.len() == 0 {
        seq![RootSlotV { root, entries }]
    } else if s[0].root == root {
        seq![RootSlotV { root, entries }] + s.drop_first()
    } else {
        seq![s[0]] + installed(s.drop_first(), root, entries)
    }
}

/// An option's entries, the empty index when it holds none.
pub open spec fn entries_or_empty(o: Option<Seq<EntryV>>) -> Seq<EntryV> {
    match o {
        Some(e) => e,
        None => Seq::empty(),
    }
}

/// The mathematical value of an `IndexStore`.
pub struct StoreV {
    pub slots: Seq<RootSlotV>,
    pub active: Seq<char>,
}

/// What a rebuild reports: the root that was walked, how many files its new
/// index holds, and when the rebuild finished.
pub struct RebuildStatus {
    pub root: String,
    pub file_count: usize,
    pub timestamp_millis: i64,
}

/// Replacing one root's index: that root's lookup sees the new entries,
/// every other root's lookup is untouched, and unique roots stay unique.
proof fn lemma_installed(s: Seq<RootSlotV>, root: Seq<char>, entries: Seq<EntryV>)
    requires
        unique_roots(s),
    ensures
        lookup(installed(s, root, entries), root) == Some(entries),
        forall|p: Seq<char>|
            p != root ==> #[trigger] lookup(installed(s, root, entries), p) == lookup(s, p),
        unique_roots(installed(s, root, entries)),
        lookup(s, root) is Some ==> installed(s, root, entries).len() == s.len(),
        lookup(s, root) is None ==> installed(s, root, entries).len() == s.len() + 1,
    decreases s.len(),
{
    let t = installed(s, root, entries);
    if s.len() == 0 {
        assert(t[0] == RootSlotV { root, entries });
        assert(t.drop_first() =~= Seq::<RootSlotV>::empty());
        assert forall|p: Seq<char>| p != root implies #[trigger] lookup(t, p) == lookup(s, p) by {
            assert(lookup(t, p) == lookup(t.drop_first(), p));
        }
    } else if s[0].root == root {
        assert(t[0] == RootSlotV { root, entries });
        assert(t.drop_first() =~= s.drop_first());
        assert forall|p: Seq<char>| p != root implies #[trigger] lookup(t, p) == lookup(s, p) by {
            assert(lookup(t, p) == lookup(t.drop_first(), p));
            assert(lookup(s, p) == lookup(s.drop_first(), p));
        }
        assert forall|i: int, j: int| 0 <= i < j < t.len() implies t[i].root != t[j].root by {
            if i > 0 {
                assert(t[i] == s[i]);
                assert(t[j] == s[j]);
            } else {
                assert(t[j] == s[j]);
                assert(s[0].root != s[j].root);
            }
        }
    } else {
        assert(unique_roots(s.drop_first()));
        lemma_installed(s.drop_first(), root, entries);
        assert(t[0] == s[0]);
        assert(t.drop_first() =~= installed(s.drop_first(), root, entries));
        assert forall|p: Seq<char>| p != root implies #[trigger] lookup(t, p) == lookup(s, p) by {
            if s[0].root == p {
            } else {
                assert(lookup(t, p) == lookup(t.drop_first(), p));
                assert(lookup(s, p) == lookup(s.drop_first(), p));
            }
        }
        let t0 = installed(s.drop_first(), root, entries);
        assert forall|i: int, j: int| 0 <= i < j < t.len() implies t[i].root != t[j].root by {
            if i > 0 {
                assert(t[i] == t0[i - 1]);
                assert(t[j] == t0[j - 1]);
            } else {
                assert(t[j] == t0[j - 1]);
                assert(t0.contains(t0[j - 1]));
                lemma_installed_contains(s.drop_first(), root, entries, t0[j - 1]);
                if t0[j - 1].root == root {
                    lemma_lookup_none_iff(s, root);
                    assert(lookup(s, root) is None ==> s[0].root != root);
                    if lookup(s.drop_first(), root) is Some {
                        lemma_lookup_none_iff(s.drop_first(), root);
                        let w = choose|w: int|
                            0 <= w < s.drop_first().len() && s.drop_first()[w].root == root;
                        assert(s[w + 1].root == root);
                        assert(s[0].root != s[w + 1].root);
                    }
                } else {
                    if s.drop_first().contains(t0[j - 1]) {
                        let w = choose|w: int|
                            0 <= w < s.drop_first().len() && s.drop_first()[w] == t0[j - 1];
                        assert(s[w + 1] == t0[j - 1]);
                        assert(s[0].root != s[w + 1].root);
                    }
                }
            }
        }
    }
}

/// Every slot of an installation is the fresh slot or one of the old ones.
proof fn lemma_installed_contains(
    s: Seq<RootSlotV>,
    root: Seq<char>,
    entries: Seq<EntryV>,
    y: RootSlotV,
)
    requires
        installed(s, root, entries).contains(y),
    ensures
        y == (RootSlotV { root, entries }) || s.contains(y),
    decreases s.len(),
{
    let t = installed(s, root, entries);
    if s.len() == 0 {
        assert(t[0] == RootSlotV { root, entries });
    } else if s[0].root == root {
        let j = choose|j: int| 0 <= j < t.len() && t[j] == y;
        if j > 0 {
            assert(s[j] == y);
        }
    } else {
        let j = choose|j: int| 0 <= j < t.len() && t[j] == y;
        if j == 0 {
            assert(s[0] == y);
        } else {
            assert(installed(s.drop_first(), root, entries)[j - 1] == y);
            assert(installed(s.drop_first(), root, entries).contains(y));
            lemma_installed_contains(s.drop_first(), root, entries, y);
            if s.drop_first().contains(y) {
                let w = choose|w: int| 0 <= w < s.drop_first().len() && s.drop_first()[w] == y;
                assert(s[w + 1] == y);
            }
        }
    }
}

/// A root is found exactly when some slot carries it.
proof fn lemma_lookup_none_iff(s: Seq<RootSlotV>, root: Seq<char>)
    ensures
        (lookup(s, root) is Some) == (exists|i: int| 0 <= i < s.len() && (#[trigger] s[i]).root
            == root),
    decreases s.len(),
{
    if s.len() == 0 {
    } else if s[0].root == root {
    } else {
        lemma_lookup_none_iff(s.drop_first(), root);
        if lookup(s, root) is Some {
            let w = choose|w: int|
                0 <= w < s.drop_first().len() && (#[trigger] s.drop_first()[w]).root == root;
            assert(s[w + 1].root == root);
        }
        if exists|i: int| 0 <= i < s.len() && (#[trigger] s[i]).root == root {
            let w = choose|w: int| 0 <= w < s.len() && (#[trigger] s[w]).root == root;
            assert(w > 0);
            assert(s.drop_first()[w - 1].root == root);
        }
    }
}

/// Skipping slots that miss the root leaves the lookup unchanged.
proof fn lemma_lookup_skip(s: Seq<RootSlotV>, root: Seq<char>, i: int)
    requires
        0 <= i <= s.len(),
        forall|k: int| 0 <= k < i ==> (#[trigger] s[k]).root != root,
    ensures
        lookup(s, root) == lookup(s.skip(i), root),
    decreases i,
{
    if i == 0 {
        assert(s.skip(0) =~= s);
    } else {
        assert(s.len() > 0);
        assert(s[0].root != root);
        assert(s.drop_first() =~= s.skip(1));
        assert(forall|k: int|
            0 <= k < i - 1 ==> (#[trigger] s.drop_first()[k]).root != root);
        lemma_lookup_skip(s.drop_first(), root, i - 1);
        assert(s.drop_first().skip(i - 1) =~= s.skip(i));
    }
}

/// Whether two strings hold the same characters.
fn str_eq(a: &str, b: &str) -> (r: bool)
    ensures
        r == (a@ == b@),
{
    let n = a.unicode_len();
    let m = b.unicode_len();
    if n != m {
        return false;
    }
    let mut k: usize = 0;
    while k < n
        invariant
            n == a@.len(),
            n == b@.len(),
            0 <= k <= n,
            forall|t: int| 0 <= t < k ==> a@[t] == b@[t],
        decreases n - k,
    {
        if a.get_char(k) != b.get_char(k) {
            return false;
        }
        k = k + 1;
    }
    proof {
        assert(a@ =~= b@);
    }
    true
}

/// The multi-root index store: one index per root and the active-root
/// pointer. Changing the active root does not discard the index previously
/// built for the old root; both stay retrievable by their root.
pub struct IndexStore {
    slots: Vec<RootSlot>,
    active: String,
}

impl View for IndexStore {
    type V = StoreV;

    closed spec fn view(&self) -> StoreV {
        StoreV { slots: slot_views(self.slots@), active: self.active@ }
    }
}

impl IndexStore {
    /// Well-formed: every root has at most one slot, and the active root has
    /// one.
    pub open spec fn wf(&self) -> bool {
        unique_roots(self@.slots) && lookup(self@.slots, self@.active) is Some
    }

    /// The index stored for `root`, if any.
    pub open spec fn index_of(&self, root: Seq<char>) -> Option<Seq<EntryV>> {
        lookup(self@.slots, root)
    }

    /// The root currently being searched.
    pub open spec fn active_root(&self) -> Seq<char> {
        self@.active
    }

    /// The active root's index.
    pub open spec fn active_index(&self) -> Seq<EntryV> {
        entries_or_empty(lookup(self@.slots, self@.active))
    }

    /// A store whose active root is `initial_root`, with an empty index for
    /// it and nothing else.
    pub fn new(initial_root: String) -> (r: IndexStore)
        ensures
            r.wf(),
            r.active_root() == initial_root@,
            r.index_of(initial_root@) == Some(Seq::<EntryV>::empty()),
            forall|p: Seq<char>| p != initial_root@ ==> #[trigger] r.index_of(p) is None,
    {
        let slot = RootSlot { root: initial_root.clone(), entries: Vec::new() };
        let mut slots: Vec<RootSlot> = Vec::new();
        slots.push(slot);
        let r = IndexStore { slots, active: initial_root };
        proof {
            assert(r@.slots =~= seq![r@.slots[0]]);
            assert(r@.slots[0].entries =~= Seq::<EntryV>::empty());
            assert(r@.slots.drop_first() =~= Seq::<RootSlotV>::empty());
            assert forall|p: Seq<char>| p != initial_root@ implies #[trigger] r.index_of(p)
                is None by {
                assert(lookup(r@.slots, p) == lookup(r@.slots.drop_first(), p));
            }
        }
        r
    }

    /// The position of the slot holding `root`, if any.
    fn find_slot(&self, root: &str) -> (r: Option<usize>)
        ensures
            match r {
                Some(i) => {
                    &&& i < self@.slots.len()
                    &&& self@.slots[i as int].root == root@
                    &&& lookup(self@.slots, root@) == Some(self@.slots[i as int].entries)
                },
                None => lookup(self@.slots, root@) is None,
            },
    {
        let ghost s = self@.slots;
        let mut i: usize = 0;
        while i < self.slots.len()
            invariant
                s == self@.slots,
                s.len() == self.slots@.len(),
                0 <= i <= s.len(),
                forall|k: int| 0 <= k < i ==> (#[trigger] s[k]).root != root@,
            decreases s.len() - i,
        {
            proof {
                assert(s[i as int] == self.slots@[i as int]@);
            }
            if str_eq(self.slots[i].root.as_str(), root) {
                proof {
                    lemma_lookup_skip(s, root@, i as int);
                    assert(s.skip(i as int)[0] == s[i as int]);
                }
                return Some(i);
            }
            i = i + 1;
        }
        proof {
            lemma_lookup_skip(s, root@, s.len() as int);
            assert(s.skip(s.len() as int) =~= Seq::<RootSlotV>::empty());
        }
        None
    }

    /// Stores `entries` as the index for `root`, replacing the previous one
    /// wholesale; every other root's index and the active root stay as they
    /// were.
    pub fn install_index(&mut self, root: &str, entries: Vec<Entry>)
        requires
            old(self).wf(),
        ensures
            final(self).wf(),
            final(self)@.slots == installed(old(self)@.slots, root@, entry_views(entries@)),
            final(self)@.active == old(self)@.active,
            final(self).index_of(root@) == Some(entry_views(entries@)),
            forall|p: Seq<char>|
                p != root@ ==> #[trigger] final(self).index_of(p) == old(self).index_of(p),
    {
        let ghost s0 = self@.slots;
        proof {
            lemma_installed(s0, root@, entry_views(entries@));
        }
        let fresh = RootSlot { root: root.to_owned(), entries };
        let ghost fresh_v = fresh@;
        match self.find_slot(root) {
            Some(i) => {
                proof {
                    lemma_installed_update(s0, root@, fresh_v.entries, i as int);
                }
                self.slots.set(i, fresh);
                proof {
                    assert(self@.slots =~= s0.update(i as int, fresh_v));
                }
            },
            None => {
                proof {
                    lemma_installed_push(s0, root@, fresh_v.entries);
                }
                self.slots.push(fresh);
                proof {
                    assert(self@.slots =~= s0.push(fresh_v));
                }
            },
        }
        proof {
            assert(lookup(self@.slots, self@.active) is Some) by {
                if self@.active != root@ {
                    assert(lookup(self@.slots, self@.active) == lookup(s0, self@.active));
                }
            }
        }
    }

    /// Makes `root` the active root. When no index is held for it in memory,
    /// the caller may hand in the entries read back from the root's snapshot,
    /// and they become its index — so that switching back to a previously
    /// indexed root needs no new walk; without a snapshot it starts empty. An
    /// index already in memory stays as it is. Returns the file count of the
    /// now-active index.
    pub fn set_active_root(&mut self, root: String, snapshot: Option<Vec<Entry>>) -> (count: usize)
        requires
            old(self).wf(),
        ensures
            final(self).wf(),
            final(self)@.active == root@,
            final(self).index_of(root@) == Some(
                match old(self).index_of(root@) {
                    Some(e) => e,
                    None => match snapshot {
                        Some(v) => entry_views(v@),
                        None => Seq::<EntryV>::empty(),
                    },
                },
            ),
            forall|p: Seq<char>|
                p != root@ ==> #[trigger] final(self).index_of(p) == old(self).index_of(p),
            count == final(self).active_index().len(),
    {
        let ghost s0 = self@.slots;
        let count: usize;
        match self.find_slot(root.as_str()) {
            Some(i) => {
                count = self.slots[i].entries.len();
                proof {
                    assert(entry_views(self.slots@[i as int].entries@).len()
                        == self.slots@[i as int].entries@.len());
                }
            },
            None => {
                let entries = match snapshot {
                    Some(v) => v,
                    None => Vec::new(),
                };
                count = entries.len();
                let ghost ev = entry_views(entries@);
                proof {
                    if snapshot is None {
                        assert(entry_views(Seq::<Entry>::empty()) =~= Seq::<EntryV>::empty());
                    }
                    assert(ev.len() == entries@.len());
                }
                self.install_index(root.as_str(), entries);
                proof {
                    lemma_installed(s0, root@, ev);
                }
            },
        }
        self.active = root;
        count
    }

    /// Rebuilds the index for `root` from a fresh walk of the filesystem and
    /// stores it in place of the old one; every other root's index and the
    /// active root stay as they were. The status reports the walked root, the
    /// new index's file count and the completion time.
    pub fn rebuild(&mut self, root: &str) -> (status: RebuildStatus)
        requires
            old(self).wf(),
        ensures
            final(self).wf(),
            status.root@ == root@,
            exists|raw: Seq<RawFileV>|
                final(self).index_of(root@) == Some(
                    built_entries(raw, root@, status.timestamp_millis),
                ),
            final(self).index_of(root@) is Some,
            status.file_count == entries_or_empty(final(self).index_of(root@)).len(),
            forall|p: Seq<char>|
                p != root@ ==> #[trigger] final(self).index_of(p) == old(self).index_of(p),
            final(self)@.active == old(self)@.active,
    {
        let raw = walk_root(root);
        let now = now_millis();
        let entries = build_index(root, &raw, now);
        let count = entries.len();
        let ghost raw_v = raw_views(raw@);
        self.install_index(root, entries);
        let status = RebuildStatus { root: root.to_owned(), file_count: count, timestamp_millis: now };
        proof {
            assert(self.index_of(root@) == Some(
                built_entries(raw_v, root@, status.timestamp_millis),
            ));
        }
        status
    }

    /// Answers a query against the active root's index: the matching entries
    /// by descending score, matches of equal score in their original order.
    pub fn query(&self, q: &str) -> (r: Vec<Entry>)
        requires
            self.wf(),
        ensures
            entry_views(r@) == ranked(q@, self.active_index()),
    {
        match self.find_slot(self.active.as_str()) {
            Some(i) => rank_entries(q, &self.slots[i].entries),
            None => {
                proof {
                    assert(false);
                }
                Vec::new()
            },
        }
    }

    /// The file count of the active root's index.
    pub fn active_file_count(&self) -> (count: usize)
        requires
            self.wf(),
        ensures
            count == self.active_index().len(),
    {
        match self.find_slot(self.active.as_str()) {
            Some(i) => self.slots[i].entries.len(),
            None => {
                proof {
                    assert(false);
                }
                0
            },
        }
    }

    /// The active root's path.
    pub fn active_root_path(&self) -> (r: &String)
        ensures
            r@ == self.active_root(),
    {
        &self.active
    }
}

/// Updating the one slot that holds the root is installing into it.
proof fn lemma_installed_update(s: Seq<RootSlotV>, root: Seq<char>, entries: Seq<EntryV>, i: int)
    requires
        unique_roots(s),
        0 <= i < s.len(),
        s[i].root == root,
    ensures
        installed(s, root, entries) == s.update(i, RootSlotV { root, entries }),
    decreases s.len(),
{
    if i == 0 {
        assert(installed(s, root, entries) =~= s.update(0, RootSlotV { root, entries }));
    } else {
        assert(s[0].root != root);
        assert(unique_roots(s.drop_first()));
        assert(s.drop_first()[i - 1].root == root);
        lemma_installed_update(s.drop_first(), root, entries, i - 1);
        assert(s.drop_first().update(i - 1, RootSlotV { root, entries }) =~= s.update(
            i,
            RootSlotV { root, entries },
        ).drop_first());
        assert(installed(s, root, entries) =~= s.update(i, RootSlotV { root, entries }));
    }
}

/// Appending a slot for a root nobody holds is installing it.
proof fn lemma_installed_push(s: Seq<RootSlotV>, root: Seq<char>, entries: Seq<EntryV>)
    requires
        lookup(s, root) is None,
    ensures
        installed(s, root, entries) == s.push(RootSlotV { root, entries }),
    decreases s.len(),
{
    if s.len() == 0 {
        assert(installed(s, root, entries) =~= s.push(RootSlotV { root, entries }));
    } else {
        assert(s[0].root != root);
        lemma_installed_push(s.drop_first(), root, entries);
        assert(s.drop_first().push(RootSlotV { root, entries }) =~= s.push(
            RootSlotV { root, entries },
        ).drop_first());
        assert(installed(s, root, entries) =~= s.push(RootSlotV { root, entries }));
    }
}

/// Switching the active root back to a previously built root, without any
/// new rebuild, leaves that root's index in place, and an empty query right
/// after the switch returns exactly that index: the search reflects the
/// root's last index, not an empty one.
pub proof fn lemma_switch_back_restores_search(
    store: IndexStore,
    switched: IndexStore,
    root: Seq<char>,
    e: Seq<EntryV>,
)
    requires
        store.index_of(root) == Some(e),
        switched@.active == root,
        switched.index_of(root) == Some(
            match store.index_of(root) {
                Some(x) => x,
                None => Seq::<EntryV>::empty(),
            },
        ),
    ensures
        switched.active_index() == e,
        ranked(Seq::<char>::empty(), switched.active_index()) == e,
{
    lemma_empty_query_returns_all(e);
}

} // verus!
