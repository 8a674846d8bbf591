//! Frecency bookkeeping of one visited path.

use crate::text::{now_timestamp, str_starts_with};
use vstd::prelude::*;

verus! {

/// Seconds in an hour.
pub const HOUR: i64 = 3600;

/// Seconds in a day.
pub const DAY: i64 = 86400;

/// Seconds in a week.
pub const WEEK: i64 = 604800;

/// Score added to an entry that lies under the current working directory.
pub const CWD_PREFERENCE_BONUS: u64 = 10;

/// Preference for sorting recent entries.
#[derive(Clone, Copy, Debug, PartialEq, Eq, Structural)]
pub enum SortPreference {
    /// By the number of visits.
    Visits,
    /// By the time of the last visit.
    LastVisit,
    /// By the frecency score.
    Frecency,
}

impl Default for SortPreference {
    fn default() -> (r: Self)
        ensures
            r == SortPreference::Frecency,
    {
        SortPreference::Frecency
    }
}

/// A visited path with its visit statistics.
#[derive(Clone, Debug)]
pub struct FrecentEntry {
    /// Absolute path.
    pub fpath: String,
    /// Time of the last visit, in seconds since the Unix epoch.
    pub last_visit: i64,
    /// Number of visits.
    pub visits: u64,
    /// Score based on frequency and recency.
    pub frecent_score: u64,
}

/// `x + 1`, capped at `u64::MAX`.
pub open spec fn saturating_inc(x: u64) -> u64 {
    if x == u64::MAX { u64::MAX } else { (x + 1) as u64 }
}

/// `x * k`, capped at `u64::MAX`.
pub open spec fn saturating_times(x: u64, k: u64) -> u64 {
    if x * k > u64::MAX { u64::MAX } else { (x * k) as u64 }
}

/// The frecency score of `visits` visits, the last one `elapsed` seconds ago.
pub open spec fn frecency(visits: u64, elapsed: int) -> u64 {
    if elapsed < HOUR {
        saturating_times(visits, 4)
    } else if elapsed < DAY {
        saturating_times(visits, 2)
    } else if elapsed < WEEK {
        visits / 2
    } else {
        visits / 4
    }
}

/// A first visit of `fpath` at time `now`.
pub open spec fn fresh_entry(fpath: String, now: i64) -> FrecentEntry {
    FrecentEntry { fpath, last_visit: now, visits: 1, frecent_score: 1 }
}

/// `e` after one more visit at time `now`.
pub open spec fn refreshed_entry(e: FrecentEntry, now: i64) -> FrecentEntry {
    FrecentEntry {
        fpath: e.fpath,
        last_visit: now,
        visits: saturating_inc(e.visits),
        frecent_score: frecency(saturating_inc(e.visits), 0),
    }
}

/// The score of `e` seen from the working directory `cwd`.
pub open spec fn cwd_score(e: FrecentEntry, cwd: Seq<char>) -> u64 {
    if cwd.is_prefix_of(e.fpath@) {
        if e.frecent_score + CWD_PREFERENCE_BONUS > u64::MAX {
            u64::MAX
        } else {
            (e.frecent_score + CWD_PREFERENCE_BONUS) as u64
        }
    } else {
        e.frecent_score
    }
}

fn saturating_times_exec(x: u64, k: u64) -> (r: u64)
    ensures
        r == saturating_times(x, k),
{
    match x.checked_mul(k) {
        Some(v) => v,
        None => u64::MAX,
    }
}

impl FrecentEntry {
    /// A first visit of `fpath` at time `now`.
    pub fn new_at(fpath: String, now: i64) -> (r: Self)
        ensures
            r == fresh_entry(fpath, now),
    {
        FrecentEntry { fpath, last_visit: now, visits: 1, frecent_score: 1 }
    }

    /// A first visit of `fpath` now; the time comes from the system clock.
    pub fn new(fpath: String) -> (r: Self)
        ensures
            r == fresh_entry(fpath, r.last_visit),
    {
        let now = now_timestamp();
        Self::new_at(fpath, now)
    }

    /// Recomputes the frecency score as seen at time `now`.
    pub fn update_frecent(&mut self, now: i64)
        ensures
            final(self).fpath == old(self).fpath,
            final(self).last_visit == old(self).last_visit,
            final(self).visits == old(self).visits,
            final(self).frecent_score == frecency(
                old(self).visits,
                now - old(self).last_visit,
            ),
    {
        let elapsed: i128 = now as i128 - self.last_visit as i128;
        let score = if elapsed < HOUR as i128 {
            saturating_times_exec(self.visits, 4)
        } else if elapsed < DAY as i128 {
            saturating_times_exec(self.visits, 2)
        } else if elapsed < WEEK as i128 {
            self.visits / 2
        } else {
            self.visits / 4
        };
        self.frecent_score = score;
    }

    /// Records one more visit at time `now`.
    pub fn refresh_at(&mut self, now: i64)
        ensures
            *final(self) == refreshed_entry(*old(self), now),
    {
        self.last_visit = now;
        self.visits = self.visits.saturating_add(1);
        self.update_frecent(now);
    }

    /// Records one more visit now; the time comes from the system clock.
    pub fn refresh_now(&mut self)
        ensures
            *final(self) == refreshed_entry(*old(self), final(self).last_visit),
    {
        let now = now_timestamp();
        self.refresh_at(now);
    }

    /// The frecency score, with a bonus when the path lies under `cwd`.
    pub fn cwd_preferred_score(&self, cwd: &str) -> (r: u64)
        ensures
            r == cwd_score(*self, cwd@),
    {
        if str_starts_with(self.fpath.as_str(), cwd) {
            self.frecent_score.saturating_add(CWD_PREFERENCE_BONUS)
        } else {
            self.frecent_score
        }
    }
}


/// The frecency score never grows as time passes, and never shrinks as
/// visits accumulate.
pub proof fn lemma_frecency_monotone(v1: u64, v2: u64, elapsed1: int, elapsed2: int)
    requires
        v1 <= v2,
        elapsed1 <= elapsed2,
    ensures
        frecency(v2, elapsed2) <= frecency(v2, elapsed1),
        frecency(v1, elapsed1) <= frecency(v2, elapsed1),
{
    assert(v2 / 4 <= v2 / 2);
    assert(v2 / 2 <= v2);
    assert(v2 <= v2 * 2) by (nonlinear_arith);
    assert(v2 * 2 <= v2 * 4) by (nonlinear_arith);
    assert(v1 * 2 <= v2 * 2) by (nonlinear_arith)
        requires
            v1 <= v2,
    ;
    assert(v1 * 4 <= v2 * 4) by (nonlinear_arith)
        requires
            v1 <= v2,
    ;
    assert(v1 / 2 <= v2 / 2) by (nonlinear_arith)
        requires
            v1 <= v2,
    ;
    assert(v1 / 4 <= v2 / 4) by (nonlinear_arith)
        requires
            v1 <= v2,
    ;
}

/// A visit counts once more and scores the freshest frecency of the new
/// visit count; the path stays the same.
pub proof fn lemma_refresh_counts_visit(e: FrecentEntry, now: i64)
    ensures
        refreshed_entry(e, now).fpath == e.fpath,
        e.visits < u64::MAX ==> refreshed_entry(e, now).visits == e.visits + 1,
        refreshed_entry(e, now).frecent_score >= refreshed_entry(e, now).visits,
{
    let v = saturating_inc(e.visits);
    assert(v <= v * 4) by (nonlinear_arith);
}


/// Seen from a working directory, an entry whose path starts with that
/// directory, the directory itself included, scores its frecency plus the
/// bonus (capped at `u64::MAX`); any other entry scores its frecency.
pub proof fn lemma_cwd_score_bonus(e: FrecentEntry, cwd: Seq<char>)
    ensures
        (cwd.len() <= e.fpath@.len() && forall|i: int| 0 <= i < cwd.len() ==> cwd[i] == e.fpath@[i])
            ==> cwd_score(e, cwd) as int == if e.frecent_score + 10 > u64::MAX {
            u64::MAX as int
        } else {
            e.frecent_score + 10
        },
        !(cwd.len() <= e.fpath@.len() && forall|i: int|
            0 <= i < cwd.len() ==> cwd[i] == e.fpath@[i]) ==> cwd_score(e, cwd) == e.frecent_score,
        cwd == e.fpath@ ==> cwd_score(e, cwd) as int == if e.frecent_score + 10 > u64::MAX {
            u64::MAX as int
        } else {
            e.frecent_score + 10
        },
{
    if cwd.len() <= e.fpath@.len() && forall|i: int| 0 <= i < cwd.len() ==> cwd[i] == e.fpath@[i] {
        assert(cwd =~= e.fpath@.subrange(0, cwd.len() as int));
    }
    if cwd.is_prefix_of(e.fpath@) {
        assert forall|i: int| 0 <= i < cwd.len() implies cwd[i] == e.fpath@[i] by {
            assert(cwd[i] == e.fpath@.subrange(0, cwd.len() as int)[i]);
        }
    }
}

} // verus!
