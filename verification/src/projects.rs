//! The in-memory list of recently used projects.

use crate::frecent::{cwd_score, fresh_entry, refreshed_entry, FrecentEntry, SortPreference};
use crate::text::{now_timestamp, string_views};
use vstd::prelude::*;

verus! {

broadcast use vstd::seq_lib::group_seq_properties, vstd::multiset::group_multiset_axioms;

/// Maximum number of projects.
pub const MAX_ENTRIES: u64 = 100;

/// Keys that never increase from the front to the back of `s`.
pub open spec fn sorted_desc_by(s: Seq<FrecentEntry>, key: spec_fn(FrecentEntry) -> u64) -> bool {
    forall|i: int, j: int| 0 <= i < j < s.len() ==> key(s[i]) >= key(s[j])
}

/// The frecency score of an entry.
pub open spec fn score_key() -> spec_fn(FrecentEntry) -> u64 {
    |e: FrecentEntry| e.frecent_score
}

/// The score of an entry seen from `cwd`.
pub open spec fn cwd_key(cwd: Seq<char>) -> spec_fn(FrecentEntry) -> u64 {
    |e: FrecentEntry| cwd_score(e, cwd)
}

/// `t` holds the same entries as `s`, as many times each.
pub open spec fn is_permutation(t: Seq<FrecentEntry>, s: Seq<FrecentEntry>) -> bool {
    t.to_multiset() == s.to_multiset()
}

proof fn lemma_insert_to_multiset<A>(s: Seq<A>, j: int, x: A)
    requires
        0 <= j <= s.len(),
    ensures
        s.insert(j, x).to_multiset() == s.to_multiset().insert(x),
{
    let t = s.insert(j, x);
    s.insert_ensures(j, x);
    assert(t.remove(j) =~= s);
    t.to_multiset_ensures();
    assert(t.contains(x)) by {
        assert(t[j] == x);
    }
    assert(t.to_multiset() =~= s.to_multiset().insert(x));
}

/// The number of leading entries of `t` whose key is at least `k`.
pub open spec fn first_below(t: Seq<FrecentEntry>, k: u64, key: spec_fn(FrecentEntry) -> u64) -> int
    decreases t.len(),
{
    if t.len() == 0 {
        0
    } else if key(t[0]) < k {
        0
    } else {
        1 + first_below(t.drop_first(), k, key)
    }
}

/// `t` with `x` inserted after the leading entries whose key is at least
/// that of `x`.
pub open spec fn insert_sorted(t: Seq<FrecentEntry>, x: FrecentEntry, key: spec_fn(FrecentEntry) -> u64) -> Seq<FrecentEntry> {
    t.insert(first_below(t, key(x), key), x)
}

/// `s` sorted by `key` from high to low; entries of equal keys keep their
/// relative order.
pub open spec fn stable_sorted_desc(s: Seq<FrecentEntry>, key: spec_fn(FrecentEntry) -> u64) -> Seq<FrecentEntry>
    decreases s.len(),
{
    if s.len() == 0 {
        s
    } else {
        insert_sorted(stable_sorted_desc(s.drop_last(), key), s.last(), key)
    }
}

proof fn lemma_first_below(t: Seq<FrecentEntry>, k: u64, key: spec_fn(FrecentEntry) -> u64)
    ensures
        0 <= first_below(t, k, key) <= t.len(),
        forall|i: int| 0 <= i < first_below(t, k, key) ==> key(t[i]) >= k,
        first_below(t, k, key) < t.len() ==> key(t[first_below(t, k, key)]) < k,
    decreases t.len(),
{
    if t.len() > 0 && key(t[0]) >= k {
        lemma_first_below(t.drop_first(), k, key);
        assert forall|i: int| 0 <= i < first_below(t, k, key) implies key(t[i]) >= k by {
            if i > 0 {
                assert(t[i] == t.drop_first()[i - 1]);
            }
        }
    }
}

proof fn lemma_first_below_at(t: Seq<FrecentEntry>, k: u64, key: spec_fn(FrecentEntry) -> u64, j: int)
    requires
        0 <= j <= t.len(),
        forall|i: int| 0 <= i < j ==> key(t[i]) >= k,
        j < t.len() ==> key(t[j]) < k,
    ensures
        first_below(t, k, key) == j,
    decreases j,
{
    if j > 0 {
        assert forall|i: int| 0 <= i < j - 1 implies key(t.drop_first()[i]) >= k by {
            assert(t.drop_first()[i] == t[i + 1]);
        }
        if j - 1 < t.drop_first().len() {
            assert(t.drop_first()[j - 1] == t[j]);
        }
        lemma_first_below_at(t.drop_first(), k, key, j - 1);
    }
}

proof fn lemma_insert_sorted(t: Seq<FrecentEntry>, x: FrecentEntry, key: spec_fn(FrecentEntry) -> u64)
    requires
        sorted_desc_by(t, key),
    ensures
        sorted_desc_by(insert_sorted(t, x, key), key),
        insert_sorted(t, x, key).to_multiset() == t.to_multiset().insert(x),
{
    let k = key(x);
    let j = first_below(t, k, key);
    lemma_first_below(t, k, key);
    lemma_insert_to_multiset(t, j, x);
    t.insert_ensures(j, x);
    let u = insert_sorted(t, x, key);
    assert forall|i: int| j <= i < t.len() implies key(t[i]) < k by {
        assert(key(t[j]) >= key(t[i]));
    }
    assert forall|i: int| 0 <= i < u.len() implies u[i] == (if i < j {
        t[i]
    } else if i == j {
        x
    } else {
        t[i - 1]
    }) by {
        if i < j {
            assert(u[i] == t[i]);
        } else if i > j {
            assert(u[i] == t[i - 1]);
        }
    }
    assert forall|a: int, b: int| 0 <= a < b < u.len() implies key(u[a]) >= key(u[b]) by {
        if b < j {
            assert(u[a] == t[a] && u[b] == t[b]);
        } else if b == j {
            assert(u[a] == t[a] && u[b] == x);
        } else if a < j {
            assert(u[a] == t[a] && u[b] == t[b - 1]);
        } else if a == j {
            assert(u[a] == x && u[b] == t[b - 1]);
        } else {
            assert(u[a] == t[a - 1] && u[b] == t[b - 1]);
        }
    }
}

/// The stable sort holds the same entries, sorted by `key` from high to low.
pub proof fn lemma_stable_sorted_desc(s: Seq<FrecentEntry>, key: spec_fn(FrecentEntry) -> u64)
    ensures
        is_permutation(stable_sorted_desc(s, key), s),
        sorted_desc_by(stable_sorted_desc(s, key), key),
        stable_sorted_desc(s, key).len() == s.len(),
    decreases s.len(),
{
    if s.len() > 0 {
        let d = s.drop_last();
        lemma_stable_sorted_desc(d, key);
        lemma_insert_sorted(stable_sorted_desc(d, key), s.last(), key);
        assert(d.push(s.last()) =~= s);
        d.to_multiset_ensures();
        stable_sorted_desc(s, key).to_multiset_ensures();
        s.to_multiset_ensures();
    }
}

/// Sorts `entries` by `key` from high to low; `keys[i]` is the key of
/// `entries[i]`. Entries of equal keys keep their relative order.
fn sort_desc(
    entries: Vec<FrecentEntry>,
    keys: Vec<u64>,
    Ghost(key): Ghost<spec_fn(FrecentEntry) -> u64>,
) -> (r: Vec<FrecentEntry>)
    requires
        keys.len() == entries.len(),
        forall|i: int| 0 <= i < entries.len() ==> keys[i] == key(entries[i]),
    ensures
        r@ == stable_sorted_desc(entries@, key),
{
    let ghost orig = entries@;
    let n = entries.len();
    let mut rest = entries;
    let mut rest_keys = keys;
    let mut out: Vec<FrecentEntry> = Vec::new();
    let mut out_keys: Vec<u64> = Vec::new();
    let mut i: usize = 0;
    while i < n
        invariant
            n == orig.len(),
            i <= n,
            rest@ == orig.skip(i as int),
            rest_keys.len() == rest.len(),
            out_keys.len() == out.len(),
            forall|x: int| 0 <= x < rest.len() ==> rest_keys[x] == key(rest[x]),
            forall|x: int| 0 <= x < out.len() ==> out_keys[x] == key(out[x]),
            out@ == stable_sorted_desc(orig.take(i as int), key),
        decreases n - i,
    {
        let ghost old_rest = rest@;
        let e = rest.remove(0);
        let k = rest_keys.remove(0);
        proof {
            assert(rest@ =~= orig.skip(i + 1));
            assert forall|x: int| 0 <= x < rest.len() implies rest_keys[x] == key(rest[x]) by {
                assert(rest[x] == old_rest[x + 1]);
            }
            assert(e == orig[i as int]);
            assert(orig.take(i + 1).drop_last() =~= orig.take(i as int));
        }
        let mut j: usize = 0;
        while j < out.len() && out_keys[j] >= k
            invariant
                j <= out.len(),
                out_keys.len() == out.len(),
                forall|x: int| 0 <= x < j ==> out_keys[x] >= k,
            decreases out.len() - j,
        {
            j += 1;
        }
        let ghost old_out = out@;
        proof {
            assert forall|x: int| 0 <= x < j implies key(old_out[x]) >= key(e) by {
                assert(out_keys[x] >= k);
            }
            if j < old_out.len() {
                assert(out_keys[j as int] < k);
            }
            lemma_first_below_at(old_out, key(e), key, j as int);
        }
        out.insert(j, e);
        out_keys.insert(j, k);
        proof {
            old_out.insert_ensures(j as int, e);
            assert forall|x: int| 0 <= x < out.len() implies out_keys[x] == key(out[x]) by {
                if x < j {
                    assert(out@[x] == old_out[x]);
                } else if x > j {
                    assert(out@[x] == old_out[x - 1]);
                }
            }
        }
        i += 1;
    }
    proof {
        assert(orig.take(n as int) =~= orig);
    }
    out
}

/// The entries of `s` whose flag in `keep` is set, in their order.
pub open spec fn select<A>(s: Seq<A>, keep: Seq<bool>) -> Seq<A>
    decreases s.len(),
{
    if s.len() == 0 {
        Seq::empty()
    } else {
        let rest = select(s.drop_last(), keep);
        if keep[s.len() - 1] {
            rest.push(s.last())
        } else {
            rest
        }
    }
}

/// `i` is the first index of an entry of `s` with the path `path`.
pub open spec fn is_first_path_index(s: Seq<FrecentEntry>, path: Seq<char>, i: int) -> bool {
    &&& 0 <= i < s.len()
    &&& s[i].fpath@ == path
    &&& forall|j: int| 0 <= j < i ==> s[j].fpath@ != path
}

/// Some entry of `s` has the path `path`.
pub open spec fn has_path(s: Seq<FrecentEntry>, path: Seq<char>) -> bool {
    exists|i: int| 0 <= i < s.len() && s[i].fpath@ == path
}

/// The first index of an entry with the path `path`, or -1 if none has it.
pub open spec fn path_index(s: Seq<FrecentEntry>, path: Seq<char>) -> int {
    if exists|i: int| is_first_path_index(s, path, i) {
        choose|i: int| is_first_path_index(s, path, i)
    } else {
        -1
    }
}

/// The entries after a visit of `path` at `now`, before they are sorted: the
/// first entry of that path is refreshed, or a fresh entry is made, and put
/// in front of the others, so that among equal scores the latest visit
/// comes first.
pub open spec fn upserted(s: Seq<FrecentEntry>, path: String, now: i64) -> Seq<FrecentEntry> {
    let i = path_index(s, path@);
    if i >= 0 {
        seq![visited_entry(s, path, now)] + s.remove(i)
    } else {
        seq![visited_entry(s, path, now)] + s
    }
}

/// The entry of `path` after its visit at `now`: its first entry refreshed,
/// or a fresh entry if it had none.
pub open spec fn visited_entry(s: Seq<FrecentEntry>, path: String, now: i64) -> FrecentEntry {
    let i = path_index(s, path@);
    if i >= 0 {
        refreshed_entry(s[i], now)
    } else {
        fresh_entry(path, now)
    }
}

/// The first `max` entries of `t`, or all of them if there are fewer.
pub open spec fn truncated(t: Seq<FrecentEntry>, max: u64) -> Seq<FrecentEntry> {
    if t.len() > max {
        t.take(max as int)
    } else {
        t
    }
}

/// No two entries share a path.
pub open spec fn unique_paths(s: Seq<FrecentEntry>) -> bool {
    forall|i: int, j: int| 0 <= i < j < s.len() ==> s[i].fpath@ != s[j].fpath@
}

/// In-memory version of the sorted recent projects.
#[derive(Clone, Debug)]
pub struct SortedProjects {
    /// Maximum number of entries.
    pub max_entries: u64,
    /// Sort preference of entries.
    pub sort_preference: SortPreference,
    /// The entries, best first once sorted.
    pub entries: Vec<FrecentEntry>,
}

/// `after` is what `before` becomes when `path` is visited at `now`: the visit is
/// recorded, the entries are sorted by frecency score from high to low (the
/// visited entry first among equal scores, the others keeping their order),
/// and those beyond `max_entries` are dropped.
pub open spec fn is_upsert_of(
    after: SortedProjects,
    before: SortedProjects,
    path: String,
    now: i64,
) -> bool {
    &&& after.max_entries == before.max_entries
    &&& after.sort_preference == before.sort_preference
    &&& after.entries@ == truncated(
        stable_sorted_desc(upserted(before.entries@, path, now), score_key()),
        before.max_entries,
    )
}

impl Default for SortedProjects {
    fn default() -> (r: Self)
        ensures
            r.max_entries == MAX_ENTRIES,
            r.sort_preference == SortPreference::Frecency,
            r.entries@.len() == 0,
    {
        SortedProjects {
            max_entries: MAX_ENTRIES,
            sort_preference: SortPreference::default(),
            entries: Vec::new(),
        }
    }
}

/// The index of the first entry whose path is `path`.
fn position_of(entries: &Vec<FrecentEntry>, path: &String) -> (r: Option<usize>)
    ensures
        match r {
            Some(i) => is_first_path_index(entries@, path@, i as int),
            None => !has_path(entries@, path@),
        },
{
    let n = entries.len();
    let mut i: usize = 0;
    while i < n
        invariant
            n == entries.len(),
            i <= n,
            forall|j: int| 0 <= j < i ==> entries@[j].fpath@ != path@,
        decreases n - i,
    {
        if entries[i].fpath == *path {
            return Some(i);
        }
        i += 1;
    }
    None
}

proof fn lemma_path_index(s: Seq<FrecentEntry>, path: Seq<char>, i: int)
    requires
        is_first_path_index(s, path, i),
    ensures
        path_index(s, path) == i,
{
    let c = choose|k: int| is_first_path_index(s, path, k);
    assert(is_first_path_index(s, path, c));
    if c < i {
        assert(s[c].fpath@ != path);
    } else if c > i {
        assert(s[i].fpath@ != path);
    }
}

proof fn lemma_path_index_none(s: Seq<FrecentEntry>, path: Seq<char>)
    requires
        !has_path(s, path),
    ensures
        path_index(s, path) == -1,
{
    if exists|i: int| is_first_path_index(s, path, i) {
        let c = choose|k: int| is_first_path_index(s, path, k);
        assert(0 <= c < s.len() && s[c].fpath@ == path);
    }
}

impl SortedProjects {
    /// Keeps the entries whose flag is set: `is_valid_dir[i]` tells whether
    /// the path of `entries[i]` names an existing directory.
    pub fn remove_invalid_entries(self, is_valid_dir: &Vec<bool>) -> (r: Self)
        requires
            is_valid_dir.len() == self.entries.len(),
        ensures
            r.max_entries == self.max_entries,
            r.sort_preference == self.sort_preference,
            r.entries@ == select(self.entries@, is_valid_dir@),
    {
        let SortedProjects { max_entries, sort_preference, entries } = self;
        let ghost orig = entries@;
        let n = entries.len();
        let mut rest = entries;
        let mut kept: Vec<FrecentEntry> = Vec::new();
        let mut i: usize = 0;
        while i < n
            invariant
                n == orig.len(),
                n == is_valid_dir.len(),
                i <= n,
                rest@ == orig.skip(i as int),
                kept@ == select(orig.take(i as int), is_valid_dir@),
            decreases n - i,
        {
            let e = rest.remove(0);
            proof {
                assert(orig.take(i + 1).drop_last() =~= orig.take(i as int));
                assert(rest@ =~= orig.skip(i + 1));
            }
            if is_valid_dir[i] {
                kept.push(e);
            }
            i += 1;
        }
        proof {
            assert(orig.take(n as int) =~= orig);
        }
        SortedProjects { max_entries, sort_preference, entries: kept }
    }

    /// The paths of all entries, in order: what a query is matched against.
    pub fn source_paths(&self) -> (r: Vec<String>)
        ensures
            string_views(r@) == self.entries@.map_values(|e: FrecentEntry| e.fpath@),
    {
        let n = self.entries.len();
        let mut out: Vec<String> = Vec::new();
        let mut i: usize = 0;
        while i < n
            invariant
                n == self.entries@.len(),
                i <= n,
                string_views(out@) == self.entries@.take(i as int).map_values(
                    |e: FrecentEntry| e.fpath@,
                ),
            decreases n - i,
        {
            out.push(self.entries[i].fpath.clone());
            proof {
                assert(self.entries@.take(i + 1).map_values(|e: FrecentEntry| e.fpath@)
                    =~= self.entries@.take(i as int).map_values(|e: FrecentEntry| e.fpath@).push(
                    self.entries@[i as int].fpath@,
                ));
                assert(string_views(out@) =~= string_views(out@.drop_last()).push(out@.last()@));
            }
            i += 1;
        }
        proof {
            assert(self.entries@.take(n as int) =~= self.entries@);
        }
        out
    }

    /// Returns the number of entries.
    pub fn len(&self) -> (r: usize)
        ensures
            r == self.entries@.len(),
    {
        self.entries.len()
    }

    /// Sorts the entries from high to low score, where an entry under `cwd`
    /// gets a bonus; entries of equal scores keep their order.
    pub fn sort_by_cwd(&mut self, cwd: &str)
        ensures
            final(self).max_entries == old(self).max_entries,
            final(self).sort_preference == old(self).sort_preference,
            final(self).entries@ == stable_sorted_desc(old(self).entries@, cwd_key(cwd@)),
            is_permutation(final(self).entries@, old(self).entries@),
            sorted_desc_by(final(self).entries@, cwd_key(cwd@)),
    {
        let mut entries: Vec<FrecentEntry> = Vec::new();
        std::mem::swap(&mut entries, &mut self.entries);
        let n = entries.len();
        let mut keys: Vec<u64> = Vec::new();
        let mut i: usize = 0;
        while i < n
            invariant
                n == entries.len(),
                i <= n,
                keys.len() == i,
                forall|j: int| 0 <= j < i ==> keys[j] == cwd_key(cwd@)(entries[j]),
            decreases n - i,
        {
            let k = entries[i].cwd_preferred_score(cwd);
            keys.push(k);
            i += 1;
        }
        self.entries = sort_desc(entries, keys, Ghost(cwd_key(cwd@)));
        proof {
            lemma_stable_sorted_desc(entries@, cwd_key(cwd@));
        }
    }

    /// Records a visit of `path` at time `now`: refreshes its entry or makes
    /// a fresh one, sorts the entries by frecency score from high to low
    /// (the visited entry first among equal scores, the others keeping their
    /// order) and keeps the first `max_entries`.
    pub fn upsert_at(&mut self, path: String, now: i64)
        ensures
            is_upsert_of(*final(self), *old(self), path, now),
            sorted_desc_by(final(self).entries@, score_key()),
            final(self).entries@.len() == if upserted(old(self).entries@, path, now).len()
                > old(self).max_entries {
                old(self).max_entries as int
            } else {
                upserted(old(self).entries@, path, now).len() as int
            },
    {
        let ghost s0 = self.entries@;
        match position_of(&self.entries, &path) {
            Some(i) => {
                proof {
                    lemma_path_index(s0, path@, i as int);
                }
                let mut e = self.entries.remove(i);
                e.refresh_at(now);
                let mut front: Vec<FrecentEntry> = Vec::new();
                front.push(e);
                front.append(&mut self.entries);
                self.entries = front;
                proof {
                    assert(self.entries@ =~= upserted(s0, path, now));
                }
            },
            None => {
                proof {
                    lemma_path_index_none(s0, path@);
                }
                let ghost p = path;
                let e = FrecentEntry::new_at(path, now);
                let mut front: Vec<FrecentEntry> = Vec::new();
                front.push(e);
                front.append(&mut self.entries);
                self.entries = front;
                proof {
                    assert(self.entries@ =~= upserted(s0, p, now));
                }
            },
        }
        let ghost mid = self.entries@;
        let mut entries: Vec<FrecentEntry> = Vec::new();
        std::mem::swap(&mut entries, &mut self.entries);
        let n = entries.len();
        let mut keys: Vec<u64> = Vec::new();
        let mut i: usize = 0;
        while i < n
            invariant
                n == entries.len(),
                i <= n,
                keys.len() == i,
                forall|j: int| 0 <= j < i ==> keys[j] == score_key()(entries[j]),
            decreases n - i,
        {
            keys.push(entries[i].frecent_score);
            i += 1;
        }
        let sorted = sort_desc(entries, keys, Ghost(score_key()));
        let ghost t = sorted@;
        self.entries = sorted;
        if (self.entries.len() as u64) > self.max_entries {
            self.entries.truncate(self.max_entries as usize);
        }
        proof {
            assert(self.entries@ == truncated(t, self.max_entries));
            lemma_stable_sorted_desc(mid, score_key());
        }
    }

    /// Records a visit of `path` now; the time comes from the system clock.
    pub fn upsert(&mut self, path: String)
        ensures
            exists|now: i64| is_upsert_of(*final(self), *old(self), path, now),
            sorted_desc_by(final(self).entries@, score_key()),
    {
        let now = now_timestamp();
        self.upsert_at(path, now);
    }
}


proof fn lemma_permutation_contains(t: Seq<FrecentEntry>, s: Seq<FrecentEntry>)
    requires
        is_permutation(t, s),
    ensures
        forall|e: FrecentEntry| t.contains(e) <==> s.contains(e),
{
    t.to_multiset_ensures();
    s.to_multiset_ensures();
    assert forall|e: FrecentEntry| t.contains(e) <==> s.contains(e) by {
        assert(t.contains(e) <==> t.to_multiset().count(e) > 0);
        assert(s.contains(e) <==> s.to_multiset().count(e) > 0);
    }
}

proof fn lemma_first_path_index_exists(s: Seq<FrecentEntry>, path: Seq<char>, k: int)
    requires
        0 <= k < s.len(),
        s[k].fpath@ == path,
    ensures
        exists|m: int| is_first_path_index(s, path, m),
    decreases k,
{
    if exists|j: int| 0 <= j < k && s[j].fpath@ == path {
        let j = choose|j: int| 0 <= j < k && s[j].fpath@ == path;
        lemma_first_path_index_exists(s, path, j);
    } else {
        assert(is_first_path_index(s, path, k));
    }
}

proof fn lemma_permutation_keeps_unique_paths(t: Seq<FrecentEntry>, s: Seq<FrecentEntry>)
    requires
        is_permutation(t, s),
        unique_paths(s),
    ensures
        unique_paths(t),
{
    assert(s.no_duplicates()) by {
        assert forall|i: int, j: int| 0 <= i < s.len() && 0 <= j < s.len() && i != j implies s[i]
            != s[j] by {
            if i < j {
                assert(s[i].fpath@ != s[j].fpath@);
            } else {
                assert(s[j].fpath@ != s[i].fpath@);
            }
        }
    }
    s.lemma_multiset_has_no_duplicates();
    t.lemma_multiset_has_no_duplicates_conv();
    lemma_permutation_contains(t, s);
    assert forall|i: int, j: int| 0 <= i < j < t.len() implies t[i].fpath@ != t[j].fpath@ by {
        assert(t.contains(t[i]));
        assert(t.contains(t[j]));
        assert(s.contains(t[i]));
        assert(s.contains(t[j]));
        let a = choose|a: int| 0 <= a < s.len() && s[a] == t[i];
        let b = choose|b: int| 0 <= b < s.len() && s[b] == t[j];
        assert(t[i] != t[j]);
        if a < b {
            assert(s[a].fpath@ != s[b].fpath@);
        } else if b < a {
            assert(s[b].fpath@ != s[a].fpath@);
        }
    }
}

proof fn lemma_upserted_keeps_unique_paths(s: Seq<FrecentEntry>, path: String, now: i64)
    requires
        unique_paths(s),
    ensures
        unique_paths(upserted(s, path, now)),
{
    let i = path_index(s, path@);
    let u = upserted(s, path, now);
    if exists|k: int| is_first_path_index(s, path@, k) {
        assert(is_first_path_index(s, path@, i));
        let src = |k: int| if k - 1 < i { k - 1 } else { k };
        assert forall|k: int| 1 <= k < u.len() implies u[k] == s[src(k)] && src(k) != i && 0
            <= src(k) < s.len() by {
            assert(u[k] == s.remove(i)[k - 1]);
        }
        assert forall|a: int, b: int| 0 <= a < b < u.len() implies u[a].fpath@ != u[b].fpath@ by {
            if a == 0 {
                assert(u[0].fpath@ == s[i].fpath@);
                let j = src(b);
                if j < i {
                    assert(s[j].fpath@ != s[i].fpath@);
                } else {
                    assert(s[i].fpath@ != s[j].fpath@);
                }
            } else {
                assert(src(a) < src(b));
            }
        }
    } else {
        assert forall|k: int| 0 <= k < s.len() implies s[k].fpath@ != path@ by {
            if s[k].fpath@ == path@ {
                lemma_first_path_index_exists(s, path@, k);
            }
        }
        assert forall|a: int, b: int| 0 <= a < b < u.len() implies u[a].fpath@ != u[b].fpath@ by {
            assert(u[b] == s[b - 1]);
            if a > 0 {
                assert(u[a] == s[a - 1]);
            }
        }
    }
}

/// A visit never makes two entries share a path: if the paths were distinct
/// before `upsert`, they are distinct after it.
pub proof fn lemma_upsert_keeps_unique_paths(
    after: SortedProjects,
    before: SortedProjects,
    path: String,
    now: i64,
)
    requires
        unique_paths(before.entries@),
        is_upsert_of(after, before, path, now),
    ensures
        unique_paths(after.entries@),
{
    let t = stable_sorted_desc(upserted(before.entries@, path, now), score_key());
    lemma_stable_sorted_desc(upserted(before.entries@, path, now), score_key());
    lemma_upserted_keeps_unique_paths(before.entries@, path, now);
    lemma_permutation_keeps_unique_paths(t, upserted(before.entries@, path, now));
}

/// After a visit, the list never holds more than `max_entries` entries, and
/// its entries are sorted by frecency score from high to low.
pub proof fn lemma_upsert_bounded_and_sorted(
    after: SortedProjects,
    before: SortedProjects,
    path: String,
    now: i64,
)
    requires
        is_upsert_of(after, before, path, now),
    ensures
        after.entries@.len() <= after.max_entries,
        sorted_desc_by(after.entries@, score_key()),
{
    let t = stable_sorted_desc(upserted(before.entries@, path, now), score_key());
    lemma_stable_sorted_desc(upserted(before.entries@, path, now), score_key());
}

/// A visit is recorded unless the list overflows: when the path was listed
/// and the list was within `max_entries`, or the list had room for one more
/// entry, the path's entry after `upsert` is its first entry refreshed (or a
/// fresh one), and the number of entries is unchanged or grows by one
/// accordingly.
pub proof fn lemma_upsert_lists_path(after: SortedProjects, before: SortedProjects, path: String, now: i64)
    requires
        is_upsert_of(after, before, path, now),
        (has_path(before.entries@, path@) && before.entries@.len() <= before.max_entries) || before.entries@.len()
            < before.max_entries,
    ensures
        has_path(after.entries@, path@),
        after.entries@.contains(visited_entry(before.entries@, path, now)),
        after.entries@.len() == before.entries@.len() + if has_path(before.entries@, path@) {
            0int
        } else {
            1int
        },
{
    let s = before.entries@;
    let u = upserted(s, path, now);
    let t = stable_sorted_desc(u, score_key());
    lemma_stable_sorted_desc(u, score_key());
    t.to_multiset_ensures();
    u.to_multiset_ensures();
    assert(u[0] == visited_entry(s, path, now));
    assert(u.contains(u[0]));
    if exists|k: int| is_first_path_index(s, path@, k) {
        let i = path_index(s, path@);
        assert(is_first_path_index(s, path@, i));
        assert(has_path(s, path@));
    } else {
        if has_path(s, path@) {
            let k = choose|k: int| 0 <= k < s.len() && s[k].fpath@ == path@;
            lemma_first_path_index_exists(s, path@, k);
        }
    }
    let e = visited_entry(s, path, now);
    assert(u.contains(e) && e.fpath@ == path@);
    lemma_permutation_contains(t, u);
    assert(t.contains(e));
    assert(after.entries@ == t);
}

/// Sorting by working directory keeps the entries themselves: the result
/// holds the same entries, and distinct paths stay distinct.
pub proof fn lemma_sort_by_cwd_keeps_entries(after: Seq<FrecentEntry>, before: Seq<FrecentEntry>)
    requires
        is_permutation(after, before),
    ensures
        after.len() == before.len(),
        forall|e: FrecentEntry| after.contains(e) <==> before.contains(e),
        unique_paths(before) ==> unique_paths(after),
{
    after.to_multiset_ensures();
    before.to_multiset_ensures();
    lemma_permutation_contains(after, before);
    if unique_paths(before) {
        lemma_permutation_keeps_unique_paths(after, before);
    }
}


/// The positions below `n` whose flag in `keep` is set, in increasing order.
pub open spec fn kept_positions(keep: Seq<bool>, n: nat) -> Seq<int>
    decreases n,
{
    if n == 0 {
        Seq::empty()
    } else {
        let r = kept_positions(keep, (n - 1) as nat);
        if keep[n - 1] {
            r.push(n - 1)
        } else {
            r
        }
    }
}

proof fn lemma_select_from(t: Seq<FrecentEntry>, keep: Seq<bool>)
    requires
        keep.len() >= t.len(),
    ensures
        select(t, keep).len() == kept_positions(keep, t.len()).len(),
        forall|a: int|
            0 <= a < select(t, keep).len() ==> {
                let x = #[trigger] kept_positions(keep, t.len())[a];
                &&& 0 <= x < t.len()
                &&& keep[x]
                &&& t[x] == select(t, keep)[a]
            },
        forall|a: int, b: int|
            0 <= a < b < select(t, keep).len() ==> #[trigger] kept_positions(keep, t.len())[a]
                < #[trigger] kept_positions(keep, t.len())[b],
    decreases t.len(),
{
    if t.len() > 0 {
        lemma_select_from(t.drop_last(), keep);
        assert(t.drop_last().len() == (t.len() - 1) as nat);
    }
}

proof fn lemma_select_unique_paths(t: Seq<FrecentEntry>, keep: Seq<bool>)
    requires
        keep.len() >= t.len(),
        unique_paths(t),
    ensures
        unique_paths(select(t, keep)),
    decreases t.len(),
{
    if t.len() > 0 {
        let d = t.drop_last();
        lemma_select_unique_paths(d, keep);
        lemma_select_from(d, keep);
        let r = select(d, keep);
        let u = select(t, keep);
        assert forall|a: int, b: int| 0 <= a < b < u.len() implies u[a].fpath@ != u[b].fpath@ by {
            if b >= r.len() {
                let x = kept_positions(keep, d.len())[a];
                assert(d[x] == r[a]);
                assert(u[a] == r[a]);
                assert(u[b] == t[t.len() - 1]);
                assert(t[x].fpath@ != t[t.len() - 1].fpath@);
            } else {
                assert(u[a] == r[a] && u[b] == r[b]);
            }
        }
    }
}

/// Dropping invalid entries keeps exactly the flagged entries, in their
/// order: the `a`-th kept entry is the entry at the `a`-th flagged position.
/// Distinct paths stay distinct.
pub proof fn lemma_remove_invalid_entries_subsequence(
    listed: Seq<FrecentEntry>,
    is_valid_dir: Seq<bool>,
)
    requires
        is_valid_dir.len() == listed.len(),
    ensures
        select(listed, is_valid_dir).len() == kept_positions(is_valid_dir, listed.len()).len(),
        forall|a: int|
            0 <= a < select(listed, is_valid_dir).len() ==> {
                let x = #[trigger] kept_positions(is_valid_dir, listed.len())[a];
                &&& 0 <= x < listed.len()
                &&& is_valid_dir[x]
                &&& listed[x] == select(listed, is_valid_dir)[a]
            },
        forall|a: int, b: int|
            0 <= a < b < select(listed, is_valid_dir).len() ==> #[trigger] kept_positions(
                is_valid_dir,
                listed.len(),
            )[a] < #[trigger] kept_positions(is_valid_dir, listed.len())[b],
        unique_paths(listed) ==> unique_paths(select(listed, is_valid_dir)),
{
    lemma_select_from(listed, is_valid_dir);
    if unique_paths(listed) {
        lemma_select_unique_paths(listed, is_valid_dir);
    }
}

} // verus!
