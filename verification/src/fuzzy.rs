//! The fuzzy search engine: a query matches a candidate path when the query's
//! characters appear, case-insensitively and in order, as a (not necessarily
//! contiguous) subsequence of the path. Matches are scored so that contiguous
//! runs beat scattered matches, matches starting at a word or segment boundary
//! beat mid-word matches, and shorter paths beat longer ones among otherwise
//! equal matches.

use vstd::prelude::*;

use crate::entry::Entry;
use crate::entry::EntryV;
use crate::entry::entry_views;

verus! {

/// Weight that separates the per-character bonuses from the path-length
/// tiebreak in a score: one bonus point outranks any length difference.
pub const LEN_WEIGHT: i128 = 0x1_0000_0000;

/// Bonus for a matched character that continues a contiguous run.
pub const RUN_BONUS: i128 = 8;

/// Bonus for a matched character standing at a word or segment boundary.
pub const BOUNDARY_BONUS: i128 = 4;

/// The code point by which two characters are compared case-insensitively:
/// an ASCII upper-case letter folds to its lower-case counterpart, every
/// other character stands for itself.
pub open spec fn folded_code(c: char) -> int {
    let u = c as u32;
    if 65 <= u && u <= 90 {
        u + 32
    } else {
        u as int
    }
}

/// Segment separators inside a path.
pub open spec fn is_separator(c: char) -> bool {
    c == '/' || c == '\\' || c == '_' || c == '-' || c == '.' || c == ' '
}

/// Whether `c` is an ASCII lower-case letter.
pub open spec fn is_ascii_lower(c: char) -> bool {
    97 <= c as u32 <= 122
}

/// Whether `c` is an ASCII upper-case letter.
pub open spec fn is_ascii_upper(c: char) -> bool {
    65 <= c as u32 <= 90
}

/// Whether a character standing after `prev` begins a word or segment:
/// at the start of the path, after a separator, or at a case transition.
pub open spec fn at_boundary(prev: Option<char>, c: char) -> bool {
    match prev {
        None => true,
        Some(p) => is_separator(p) || (is_ascii_lower(p) && is_ascii_upper(c)),
    }
}

/// Bonus earned by one matched character.
pub open spec fn char_bonus(boundary: bool, contiguous: bool) -> int {
    1 + (if contiguous { RUN_BONUS as int } else { 0 }) + (if boundary { BOUNDARY_BONUS as int } else { 0 })
}

/// Greedy left-to-right match of query `q` against path `p`: each path
/// character is compared with the first unmatched query character, and a
/// match consumes both. Returns the total of the per-character bonuses, or
/// `None` when the query is not a case-insensitive subsequence of the path.
/// `prev` is the path character just before `p`, and `contiguous` says
/// whether it was matched.
pub open spec fn score_from(q: Seq<char>, p: Seq<char>, prev: Option<char>, contiguous: bool) -> Option<int>
    decreases p.len(),
{
    if q.len() == 0 {
        Some(0)
    } else if p.len() == 0 {
        None
    } else if folded_code(q[0]) == folded_code(p[0]) {
        match score_from(q.drop_first(), p.drop_first(), Some(p[0]), true) {
            Some(s) => Some(s + char_bonus(at_boundary(prev, p[0]), contiguous)),
            None => None,
        }
    } else {
        score_from(q, p.drop_first(), Some(p[0]), false)
    }
}

/// Whether query `q` matches path `p`.
pub open spec fn matches_query(q: Seq<char>, p: Seq<char>) -> bool {
    score_from(q, p, None, false) is Some
}

/// Length penalty of a path: its character count, capped so that it always
/// stays below one bonus point's weight.
pub open spec fn len_penalty(n: int) -> int {
    if n < LEN_WEIGHT as int {
        n
    } else {
        LEN_WEIGHT as int - 1
    }
}

/// The score of query `q` against path `p`: `None` when `q` does not match,
/// the weighted bonus total less the length penalty when it does. An empty
/// query matches every path with the same score.
pub open spec fn match_score(q: Seq<char>, p: Seq<char>) -> Option<int> {
    if q.len() == 0 {
        Some(0)
    } else {
        match score_from(q, p, None, false) {
            Some(s) => Some(s * (LEN_WEIGHT as int) - len_penalty(p.len() as int)),
            None => None,
        }
    }
}

/// The score of a matching query, `0` on a non-match.
pub open spec fn score_of(q: Seq<char>, p: Seq<char>) -> int {
    match match_score(q, p) {
        Some(s) => s,
        None => 0,
    }
}

/// Case-folds a character's code point.
fn folded(c: char) -> (r: u32)
    ensures
        r as int == folded_code(c),
{
    let u = c as u32;
    if 65 <= u && u <= 90 {
        u + 32
    } else {
        u
    }
}

/// Whether `c` is a segment separator.
fn separator(c: char) -> (r: bool)
    ensures
        r == is_separator(c),
{
    c == '/' || c == '\\' || c == '_' || c == '-' || c == '.' || c == ' '
}

/// Whether a character standing after `prev` begins a word or segment.
fn boundary(prev: Option<char>, c: char) -> (r: bool)
    ensures
        r == at_boundary(prev, c),
{
    match prev {
        None => true,
        Some(p) => {
            let pu = p as u32;
            let cu = c as u32;
            separator(p) || (97 <= pu && pu <= 122 && 65 <= cu && cu <= 90)
        },
    }
}

/// Maps an executable score to its mathematical value.
pub open spec fn lift_score(r: Option<i128>) -> Option<int> {
    match r {
        Some(s) => Some(s as int),
        None => None,
    }
}

/// Scores query `q` against path `p`: `None` when `q` is not a
/// case-insensitive subsequence of `p`, the match's score otherwise.
pub fn fuzzy_score(q: &str, p: &str) -> (r: Option<i128>)
    ensures
        lift_score(r) == match_score(q@, p@),
{
    let q_len = q.unicode_len();
    let p_len = p.unicode_len();
    if q_len == 0 {
        return Some(0);
    }
    let mut qi: usize = 0;
    let mut acc: i128 = 0;
    let mut prev: Option<char> = None;
    let mut contiguous: bool = false;
    let mut j: usize = 0;
    proof {
        assert(q@.skip(0) =~= q@);
        assert(p@.skip(0) =~= p@);
    }
    while j < p_len
        invariant
            q_len == q@.len(),
            p_len == p@.len(),
            q_len > 0,
            0 <= qi <= q_len,
            0 <= j <= p_len,
            0 <= acc <= 13 * qi,
            prev == (if j == 0 { None::<char> } else { Some(p@[j as int - 1]) }),
            contiguous ==> j > 0,
            (match score_from(q@.skip(qi as int), p@.skip(j as int), prev, contiguous) {
                Some(s) => score_from(q@, p@, None, false) == Some(s + acc as int),
                None => score_from(q@, p@, None, false) is None,
            }),
        decreases p_len - j,
    {
        let pc = p.get_char(j);
        assert(p@.skip(j as int)[0] == p@[j as int]);
        assert(p@.skip(j as int).drop_first() =~= p@.skip(j as int + 1));
        if qi < q_len {
            let qc = q.get_char(qi);
            assert(q@.skip(qi as int)[0] == q@[qi as int]);
            if folded(qc) == folded(pc) {
                assert(q@.skip(qi as int).drop_first() =~= q@.skip(qi as int + 1));
                let b: i128 = 1 + (if contiguous { RUN_BONUS } else { 0 })
                    + (if boundary(prev, pc) { BOUNDARY_BONUS } else { 0 });
                acc = acc + b;
                qi = qi + 1;
                contiguous = true;
            } else {
                contiguous = false;
            }
        } else {
            assert(score_from(q@.skip(qi as int), p@.skip(j as int), prev, contiguous) == Some(0int));
            contiguous = false;
        }
        prev = Some(pc);
        j = j + 1;
    }
    if qi == q_len {
        assert(score_from(q@.skip(qi as int), p@.skip(j as int), prev, contiguous) == Some(0int));
        let penalty: i128 = if (p_len as i128) < LEN_WEIGHT { p_len as i128 } else { LEN_WEIGHT - 1 };
        Some(acc * LEN_WEIGHT - penalty)
    } else {
        assert(q@.skip(qi as int).len() > 0);
        assert(p@.skip(j as int).len() == 0);
        assert(score_from(q@.skip(qi as int), p@.skip(j as int), prev, contiguous) is None);
        None
    }
}

/// A matching entry paired with its score.
pub struct Scored {
    pub score: i128,
    pub entry: Entry,
}

/// The mathematical value of a `Scored`.
pub struct ScoredV {
    pub score: int,
    pub entry: EntryV,
}

impl View for Scored {
    type V = ScoredV;

    open spec fn view(&self) -> ScoredV {
        ScoredV { score: self.score as int, entry: self.entry@ }
    }
}

/// The values of a list of scored entries.
pub open spec fn scored_views(s: Seq<Scored>) -> Seq<ScoredV> {
    s.map_values(|x: Scored| x@)
}

/// The entries of an index that match query `q`, in index order, each paired
/// with its score.
pub open spec fn scored_entries(q: Seq<char>, index: Seq<EntryV>) -> Seq<ScoredV>
    decreases index.len(),
{
    if index.len() == 0 {
        Seq::empty()
    } else {
        let rest = scored_entries(q, index.drop_last());
        if matches_query(q, index.last().path) {
            rest.push(ScoredV { score: score_of(q, index.last().path), entry: index.last() })
        } else {
            rest
        }
    }
}

/// `x` placed into `s` after every element whose score is at least `x`'s:
/// the insertion step of a stable sort by descending score.
pub open spec fn insert_desc(s: Seq<ScoredV>, x: ScoredV) -> Seq<ScoredV>
    decreases s.len(),
{
    if s.len() == 0 {
        seq![x]
    } else if x.score > s.last().score {
        insert_desc(s.drop_last(), x).push(s.last())
    } else {
        s.push(x)
    }
}

/// `s` stably sorted by descending score.
pub open spec fn sort_desc(s: Seq<ScoredV>) -> Seq<ScoredV>
    decreases s.len(),
{
    if s.len() == 0 {
        Seq::empty()
    } else {
        insert_desc(sort_desc(s.drop_last()), s.last())
    }
}

/// The entries of a scored list, scores dropped.
pub open spec fn strip_scores(s: Seq<ScoredV>) -> Seq<EntryV> {
    s.map_values(|x: ScoredV| x.entry)
}

/// The search result for query `q` on an index: the matching entries by
/// descending score, matches of equal score keeping their original order,
/// non-matching entries left out.
pub open spec fn ranked(q: Seq<char>, index: Seq<EntryV>) -> Seq<EntryV> {
    strip_scores(sort_desc(scored_entries(q, index)))
}

/// Inserting `x` lands exactly at `pos` when everything from `pos` on scores
/// below `x` and the element just before `pos` (if any) does not.
proof fn lemma_insert_desc_at(s: Seq<ScoredV>, x: ScoredV, pos: int)
    requires
        0 <= pos <= s.len(),
        forall|k: int| pos <= k < s.len() ==> s[k].score < x.score,
        pos > 0 ==> s[pos - 1].score >= x.score,
    ensures
        insert_desc(s, x) == s.subrange(0, pos) + seq![x] + s.subrange(pos, s.len() as int),
    decreases s.len(),
{
    if s.len() == 0 {
        assert(insert_desc(s, x) =~= s.subrange(0, pos) + seq![x] + s.subrange(
            pos,
            s.len() as int,
        ));
    } else if pos == s.len() {
        assert(s[pos - 1].score >= x.score);
        assert(insert_desc(s, x) =~= s.subrange(0, pos) + seq![x] + s.subrange(
            pos,
            s.len() as int,
        ));
    } else {
        assert(s[s.len() - 1].score < x.score);
        lemma_insert_desc_at(s.drop_last(), x, pos);
        assert(insert_desc(s, x) =~= s.subrange(0, pos) + seq![x] + s.subrange(
            pos,
            s.len() as int,
        ));
    }
}

/// Ranks the entries of an index against query `q`: the matching entries by
/// descending score, matches of equal score in their original order.
pub fn rank_entries(q: &str, index: &Vec<Entry>) -> (r: Vec<Entry>)
    ensures
        entry_views(r@) == ranked(q@, entry_views(index@)),
{
    let mut pairs: Vec<Scored> = Vec::new();
    proof {
        assert(entry_views(index@.subrange(0, 0)) =~= Seq::<EntryV>::empty());
        assert(scored_views(pairs@) =~= Seq::<ScoredV>::empty());
    }
    let mut i: usize = 0;
    while i < index.len()
        invariant
            0 <= i <= index.len(),
            scored_views(pairs@) == sort_desc(
                scored_entries(q@, entry_views(index@.subrange(0, i as int))),
            ),
        decreases index.len() - i,
    {
        proof {
            assert(entry_views(index@.subrange(0, i as int + 1)).drop_last() =~= entry_views(
                index@.subrange(0, i as int),
            ));
            assert(entry_views(index@.subrange(0, i as int + 1)).last() == index@[i as int]@);
        }
        let ghost prefix_views = entry_views(index@.subrange(0, i as int + 1));
        match fuzzy_score(q, index[i].path.as_str()) {
            Some(s) => {
                let x = Scored { score: s, entry: index[i].duplicate() };
                proof {
                    assert(match_score(q@, index@[i as int]@.path) == Some(s as int));
                    assert(matches_query(q@, index@[i as int]@.path));
                    assert(score_of(q@, index@[i as int]@.path) == s as int);
                    assert(x@ == ScoredV { score: s as int, entry: index@[i as int]@ });
                    assert(scored_entries(q@, prefix_views) == scored_entries(
                        q@,
                        entry_views(index@.subrange(0, i as int)),
                    ).push(x@));
                    assert(scored_entries(q@, prefix_views).drop_last() =~= scored_entries(
                        q@,
                        entry_views(index@.subrange(0, i as int)),
                    ));
                    assert(sort_desc(scored_entries(q@, prefix_views)) == insert_desc(
                        sort_desc(scored_entries(q@, entry_views(index@.subrange(0, i as int)))),
                        x@,
                    ));
                }
                let mut pos: usize = pairs.len();
                while pos > 0 && pairs[pos - 1].score < s
                    invariant
                        0 <= pos <= pairs@.len(),
                        forall|k: int|
                            pos <= k < pairs@.len() ==> scored_views(pairs@)[k].score < s as int,
                    decreases pos,
                {
                    proof {
                        assert(scored_views(pairs@)[pos - 1] == pairs@[pos - 1]@);
                    }
                    pos = pos - 1;
                }
                proof {
                    if pos > 0 {
                        assert(scored_views(pairs@)[pos - 1] == pairs@[pos - 1]@);
                    }
                    lemma_insert_desc_at(scored_views(pairs@), x@, pos as int);
                }
                let ghost before = pairs@;
                pairs.insert(pos, x);
                proof {
                    assert(scored_views(pairs@) =~= scored_views(before).subrange(0, pos as int)
                        + seq![x@] + scored_views(before).subrange(
                        pos as int,
                        before.len() as int,
                    ));
                }
            },
            None => {
                proof {
                    assert(match_score(q@, index@[i as int]@.path) is None);
                    assert(!matches_query(q@, index@[i as int]@.path));
                    assert(scored_entries(q@, prefix_views) == scored_entries(
                        q@,
                        entry_views(index@.subrange(0, i as int)),
                    ));
                }
            },
        }
        i = i + 1;
    }
    proof {
        assert(index@.subrange(0, index@.len() as int) =~= index@);
    }
    let mut out: Vec<Entry> = Vec::new();
    proof {
        assert(entry_views(out@) =~= strip_scores(scored_views(pairs@).subrange(0, 0)));
    }
    let mut k: usize = 0;
    while k < pairs.len()
        invariant
            0 <= k <= pairs.len(),
            scored_views(pairs@) == sort_desc(scored_entries(q@, entry_views(index@))),
            entry_views(out@) == strip_scores(scored_views(pairs@).subrange(0, k as int)),
        decreases pairs.len() - k,
    {
        let ghost before_out = out@;
        out.push(pairs[k].entry.duplicate());
        proof {
            assert(scored_views(pairs@).len() == pairs@.len());
            assert(entry_views(before_out).len() == before_out.len());
            assert(before_out.len() == k);
            assert(out@.len() == k + 1);
            assert(scored_views(pairs@)[k as int] == pairs@[k as int]@);
            assert(out@.last()@ == pairs@[k as int].entry@);
            assert forall|t: int| 0 <= t < out@.len() implies entry_views(out@)[t] == strip_scores(
                scored_views(pairs@).subrange(0, k as int + 1),
            )[t] by {
                assert(entry_views(out@)[t] == out@[t]@);
                if t < k {
                    assert(out@[t] == before_out[t]);
                    assert(entry_views(before_out)[t] == before_out[t]@);
                    assert(strip_scores(scored_views(pairs@).subrange(0, k as int))[t]
                        == scored_views(pairs@).subrange(0, k as int)[t].entry);
                    assert(scored_views(pairs@).subrange(0, k as int)[t] == scored_views(
                        pairs@,
                    )[t]);
                } else {
                    assert(t == k);
                }
                assert(scored_views(pairs@).subrange(0, k as int + 1)[t] == scored_views(
                    pairs@,
                )[t]);
                assert(strip_scores(scored_views(pairs@).subrange(0, k as int + 1))[t]
                    == scored_views(pairs@).subrange(0, k as int + 1)[t].entry);
            }
            assert(entry_views(out@) =~= strip_scores(
                scored_views(pairs@).subrange(0, k as int + 1),
            ));
        }
        k = k + 1;
    }
    proof {
        assert(scored_views(pairs@).subrange(0, pairs@.len() as int) =~= scored_views(pairs@));
    }
    out
}

/// An order-preserving embedding of query `q` into path `p`: a strictly
/// increasing choice of one position in `p` per character of `q`, matching
/// characters case-insensitively.
pub open spec fn is_embedding(f: Seq<int>, q: Seq<char>, p: Seq<char>) -> bool {
    &&& f.len() == q.len()
    &&& (forall|i: int| 0 <= i < f.len() ==> 0 <= #[trigger] f[i] < p.len())
    &&& (forall|i: int, j: int| 0 <= i < j < f.len() ==> f[i] < f[j])
    &&& (forall|i: int| 0 <= i < f.len() ==> folded_code(q[i]) == folded_code(p[#[trigger] f[i]]))
}

/// A successful greedy match embeds the query into the path: the query's
/// characters appear, case-insensitively and in order, as a subsequence.
pub proof fn lemma_match_is_subsequence(q: Seq<char>, p: Seq<char>, prev: Option<char>, contiguous: bool)
    requires
        score_from(q, p, prev, contiguous) is Some,
    ensures
        exists|f: Seq<int>| is_embedding(f, q, p),
    decreases p.len(),
{
    if q.len() == 0 {
        let f = Seq::<int>::empty();
        assert(is_embedding(f, q, p));
    } else if folded_code(q[0]) == folded_code(p[0]) {
        lemma_match_is_subsequence(q.drop_first(), p.drop_first(), Some(p[0]), true);
        let f0 = choose|f0: Seq<int>| is_embedding(f0, q.drop_first(), p.drop_first());
        let f = seq![0int] + f0.map_values(|v: int| v + 1);
        assert forall|i: int| 0 <= i < f.len() implies 0 <= #[trigger] f[i] < p.len() by {
            if i > 0 {
                assert(f[i] == f0[i - 1] + 1);
            }
        }
        assert forall|i: int, j: int| 0 <= i < j < f.len() implies f[i] < f[j] by {
            if i > 0 {
                assert(f[i] == f0[i - 1] + 1);
            }
            assert(f[j] == f0[j - 1] + 1);
        }
        assert forall|i: int| 0 <= i < f.len() implies folded_code(q[i]) == folded_code(
            p[#[trigger] f[i]],
        ) by {
            if i > 0 {
                assert(f[i] == f0[i - 1] + 1);
                assert(q.drop_first()[i - 1] == q[i]);
                assert(p.drop_first()[f0[i - 1]] == p[f0[i - 1] + 1]);
            }
        }
        assert(is_embedding(f, q, p));
    } else {
        lemma_match_is_subsequence(q, p.drop_first(), Some(p[0]), false);
        let f0 = choose|f0: Seq<int>| is_embedding(f0, q, p.drop_first());
        let f = f0.map_values(|v: int| v + 1);
        assert forall|i: int| 0 <= i < f.len() implies 0 <= #[trigger] f[i] < p.len() by {
            assert(f[i] == f0[i] + 1);
        }
        assert forall|i: int, j: int| 0 <= i < j < f.len() implies f[i] < f[j] by {
            assert(f[i] == f0[i] + 1);
            assert(f[j] == f0[j] + 1);
        }
        assert forall|i: int| 0 <= i < f.len() implies folded_code(q[i]) == folded_code(
            p[#[trigger] f[i]],
        ) by {
            assert(f[i] == f0[i] + 1);
            assert(p.drop_first()[f0[i]] == p[f0[i] + 1]);
        }
        assert(is_embedding(f, q, p));
    }
}

/// Every element of an insertion is the inserted one or one of the old ones.
proof fn lemma_insert_desc_contains(s: Seq<ScoredV>, x: ScoredV, y: ScoredV)
    requires
        insert_desc(s, x).contains(y),
    ensures
        y == x || s.contains(y),
    decreases s.len(),
{
    if s.len() == 0 {
        assert(insert_desc(s, x)[0] == x);
    } else if x.score > s.last().score {
        let t = insert_desc(s.drop_last(), x).push(s.last());
        let j = choose|j: int| 0 <= j < t.len() && t[j] == y;
        if j == t.len() - 1 {
            assert(s[s.len() - 1] == y);
        } else {
            assert(insert_desc(s.drop_last(), x)[j] == y);
            assert(insert_desc(s.drop_last(), x).contains(y));
            lemma_insert_desc_contains(s.drop_last(), x, y);
            if s.drop_last().contains(y) {
                let k = choose|k: int| 0 <= k < s.drop_last().len() && s.drop_last()[k] == y;
                assert(s[k] == y);
            }
        }
    } else {
        let t = s.push(x);
        let j = choose|j: int| 0 <= j < t.len() && t[j] == y;
        if j == t.len() - 1 {
        } else {
            assert(s[j] == y);
        }
    }
}

/// Sorting adds and drops nothing: every element of the sorted list stands in
/// the original.
proof fn lemma_sort_desc_contains(s: Seq<ScoredV>, y: ScoredV)
    requires
        sort_desc(s).contains(y),
    ensures
        s.contains(y),
    decreases s.len(),
{
    if s.len() == 0 {
    } else {
        lemma_insert_desc_contains(sort_desc(s.drop_last()), s.last(), y);
        if y == s.last() {
            assert(s[s.len() - 1] == y);
        } else if sort_desc(s.drop_last()).contains(y) {
            lemma_sort_desc_contains(s.drop_last(), y);
            let k = choose|k: int| 0 <= k < s.drop_last().len() && s.drop_last()[k] == y;
            assert(s[k] == y);
        }
    }
}

/// Every scored element pairs an entry of the index that matches the query
/// with that entry's score.
proof fn lemma_scored_entries_facts(q: Seq<char>, index: Seq<EntryV>, y: ScoredV)
    requires
        scored_entries(q, index).contains(y),
    ensures
        matches_query(q, y.entry.path),
        y.score == score_of(q, y.entry.path),
        index.contains(y.entry),
    decreases index.len(),
{
    if index.len() == 0 {
    } else {
        let rest = scored_entries(q, index.drop_last());
        if matches_query(q, index.last().path) && y == (ScoredV {
            score: score_of(q, index.last().path),
            entry: index.last(),
        }) {
            assert(index[index.len() - 1] == y.entry);
        } else {
            let t = scored_entries(q, index);
            let j = choose|j: int| 0 <= j < t.len() && t[j] == y;
            if matches_query(q, index.last().path) {
                assert(rest[j] == y);
            }
            assert(rest.contains(y));
            lemma_scored_entries_facts(q, index.drop_last(), y);
            let k = choose|k: int| 0 <= k < index.drop_last().len() && index.drop_last()[k]
                == y.entry;
            assert(index[k] == y.entry);
        }
    }
}

/// Every entry that `ranked` returns comes from the index and matches the
/// query: the query's characters appear case-insensitively, in order, as a
/// subsequence of the entry's path.
pub proof fn lemma_ranked_entries_match(q: Seq<char>, index: Seq<EntryV>, i: int)
    requires
        0 <= i < ranked(q, index).len(),
    ensures
        matches_query(q, ranked(q, index)[i].path),
        index.contains(ranked(q, index)[i]),
        exists|f: Seq<int>| is_embedding(f, q, ranked(q, index)[i].path),
{
    let s = sort_desc(scored_entries(q, index));
    assert(ranked(q, index)[i] == s[i].entry);
    assert(s.contains(s[i]));
    lemma_sort_desc_contains(scored_entries(q, index), s[i]);
    lemma_scored_entries_facts(q, index, s[i]);
    lemma_match_is_subsequence(q, s[i].entry.path, None, false);
}

/// Insertion drops nothing: the inserted element and every old one stand in
/// the result.
proof fn lemma_insert_desc_keeps(s: Seq<ScoredV>, x: ScoredV, y: ScoredV)
    requires
        y == x || s.contains(y),
    ensures
        insert_desc(s, x).contains(y),
    decreases s.len(),
{
    let t = insert_desc(s, x);
    if s.len() == 0 {
        assert(t[0] == x);
    } else if x.score > s.last().score {
        let t0 = insert_desc(s.drop_last(), x);
        if y == s.last() {
            assert(t[t.len() - 1] == y);
        } else {
            if s.contains(y) {
                let k = choose|k: int| 0 <= k < s.len() && s[k] == y;
                assert(s.drop_last()[k] == y);
            }
            lemma_insert_desc_keeps(s.drop_last(), x, y);
            let j = choose|j: int| 0 <= j < t0.len() && t0[j] == y;
            assert(t[j] == y);
        }
    } else {
        if y == x {
            assert(t[t.len() - 1] == y);
        } else {
            let k = choose|k: int| 0 <= k < s.len() && s[k] == y;
            assert(t[k] == y);
        }
    }
}

/// Sorting drops nothing: every element of the list stands in the sorted
/// list.
proof fn lemma_sort_desc_keeps(s: Seq<ScoredV>, y: ScoredV)
    requires
        s.contains(y),
    ensures
        sort_desc(s).contains(y),
    decreases s.len(),
{
    let k = choose|k: int| 0 <= k < s.len() && s[k] == y;
    if k == s.len() - 1 {
        lemma_insert_desc_keeps(sort_desc(s.drop_last()), s.last(), y);
    } else {
        assert(s.drop_last()[k] == y);
        lemma_sort_desc_keeps(s.drop_last(), y);
        lemma_insert_desc_keeps(sort_desc(s.drop_last()), s.last(), y);
    }
}

/// Every matching entry of the index is scored.
proof fn lemma_scored_entries_complete(q: Seq<char>, index: Seq<EntryV>, i: int)
    requires
        0 <= i < index.len(),
        matches_query(q, index[i].path),
    ensures
        scored_entries(q, index).contains(
            ScoredV { score: score_of(q, index[i].path), entry: index[i] },
        ),
    decreases index.len(),
{
    let t = scored_entries(q, index);
    let y = ScoredV { score: score_of(q, index[i].path), entry: index[i] };
    if i == index.len() - 1 {
        assert(t[t.len() - 1] == y);
    } else {
        assert(index.drop_last()[i] == index[i]);
        lemma_scored_entries_complete(q, index.drop_last(), i);
        let rest = scored_entries(q, index.drop_last());
        let j = choose|j: int| 0 <= j < rest.len() && rest[j] == y;
        assert(t[j] == y);
    }
}

/// The search result is complete: every entry of the index that matches the
/// query appears in it.
pub proof fn lemma_ranked_complete(q: Seq<char>, index: Seq<EntryV>, i: int)
    requires
        0 <= i < index.len(),
        matches_query(q, index[i].path),
    ensures
        ranked(q, index).contains(index[i]),
{
    let y = ScoredV { score: score_of(q, index[i].path), entry: index[i] };
    lemma_scored_entries_complete(q, index, i);
    lemma_sort_desc_keeps(scored_entries(q, index), y);
    let s = sort_desc(scored_entries(q, index));
    let j = choose|j: int| 0 <= j < s.len() && s[j] == y;
    assert(ranked(q, index)[j] == y.entry);
}

/// A list of equal scores is already sorted: insertion puts the newcomer at
/// the very end.
proof fn lemma_sort_desc_constant(s: Seq<ScoredV>, c: int)
    requires
        forall|k: int| 0 <= k < s.len() ==> (#[trigger] s[k]).score == c,
    ensures
        sort_desc(s) == s,
    decreases s.len(),
{
    if s.len() == 0 {
        assert(sort_desc(s) =~= s);
    } else {
        assert(forall|k: int|
            0 <= k < s.drop_last().len() ==> (#[trigger] s.drop_last()[k]).score == c);
        lemma_sort_desc_constant(s.drop_last(), c);
        if s.drop_last().len() == 0 {
            assert(sort_desc(s) =~= s);
        } else {
            assert(s.drop_last().last().score == c);
            assert(s.last().score == c);
            assert(sort_desc(s) == s.drop_last().push(s.last()));
            assert(sort_desc(s) =~= s);
        }
    }
}

/// An empty query gives every entry the same score and keeps every entry.
proof fn lemma_scored_empty_query(index: Seq<EntryV>)
    ensures
        scored_entries(Seq::<char>::empty(), index).len() == index.len(),
        forall|k: int|
            0 <= k < index.len() ==> #[trigger] scored_entries(Seq::<char>::empty(), index)[k]
                == (ScoredV { score: 0, entry: index[k] }),
    decreases index.len(),
{
    let q = Seq::<char>::empty();
    if index.len() == 0 {
    } else {
        lemma_scored_empty_query(index.drop_last());
        assert(matches_query(q, index.last().path));
        assert(score_of(q, index.last().path) == 0);
        assert(scored_entries(q, index) == scored_entries(q, index.drop_last()).push(
            ScoredV { score: 0, entry: index.last() },
        ));
        assert(forall|k: int|
            0 <= k < index.drop_last().len() ==> #[trigger] index.drop_last()[k] == index[k]);
    }
}

/// The search for an empty query returns the whole index in its original
/// insertion order.
pub proof fn lemma_empty_query_returns_all(index: Seq<EntryV>)
    ensures
        ranked(Seq::<char>::empty(), index) == index,
{
    let q = Seq::<char>::empty();
    lemma_scored_empty_query(index);
    lemma_sort_desc_constant(scored_entries(q, index), 0);
    assert(ranked(q, index) =~= index);
}

/// Scores never increase along a ranked list.
pub open spec fn sorted_desc(s: Seq<ScoredV>) -> bool {
    forall|i: int, j: int| 0 <= i <= j < s.len() ==> s[i].score >= s[j].score
}

/// Insertion keeps a list sorted by descending score.
proof fn lemma_insert_desc_sorted(s: Seq<ScoredV>, x: ScoredV)
    requires
        sorted_desc(s),
    ensures
        sorted_desc(insert_desc(s, x)),
    decreases s.len(),
{
    if s.len() == 0 {
    } else if x.score > s.last().score {
        assert(sorted_desc(s.drop_last()));
        lemma_insert_desc_sorted(s.drop_last(), x);
        let t0 = insert_desc(s.drop_last(), x);
        let t = t0.push(s.last());
        assert forall|i: int, j: int| 0 <= i <= j < t.len() implies t[i].score >= t[j].score by {
            if j == t.len() - 1 && i < j {
                assert(t0.contains(t0[i]));
                lemma_insert_desc_contains(s.drop_last(), x, t0[i]);
                if s.drop_last().contains(t0[i]) {
                    let k = choose|k: int|
                        0 <= k < s.drop_last().len() && s.drop_last()[k] == t0[i];
                    assert(s[k].score >= s[s.len() - 1].score);
                }
            }
        }
    } else {
        let t = s.push(x);
        assert forall|i: int, j: int| 0 <= i <= j < t.len() implies t[i].score >= t[j].score by {
            if j == t.len() - 1 && i < j {
                assert(s[i].score >= s[s.len() - 1].score);
            }
        }
    }
}

/// A sort by descending score leaves the list sorted.
proof fn lemma_sort_desc_sorted(s: Seq<ScoredV>)
    ensures
        sorted_desc(sort_desc(s)),
    decreases s.len(),
{
    if s.len() == 0 {
    } else {
        lemma_sort_desc_sorted(s.drop_last());
        lemma_insert_desc_sorted(sort_desc(s.drop_last()), s.last());
    }
}

/// Ranked entries come by descending match score.
pub proof fn lemma_ranked_sorted(q: Seq<char>, index: Seq<EntryV>, i: int, j: int)
    requires
        0 <= i <= j < ranked(q, index).len(),
    ensures
        score_of(q, ranked(q, index)[i].path) >= score_of(q, ranked(q, index)[j].path),
{
    let s = sort_desc(scored_entries(q, index));
    lemma_sort_desc_sorted(scored_entries(q, index));
    assert(ranked(q, index)[i] == s[i].entry);
    assert(ranked(q, index)[j] == s[j].entry);
    assert(s.contains(s[i]));
    assert(s.contains(s[j]));
    lemma_sort_desc_contains(scored_entries(q, index), s[i]);
    lemma_sort_desc_contains(scored_entries(q, index), s[j]);
    lemma_scored_entries_facts(q, index, s[i]);
    lemma_scored_entries_facts(q, index, s[j]);
}

} // verus!
