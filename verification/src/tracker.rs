//! Per-(channel, topic) duration bookkeeping.
//!
//! A [`Tracker`] remembers when a topic was last mentioned and the longest
//! gap, in whole days, ever observed between two consecutive mentions.
//! Timestamps are UTC seconds since the Unix epoch.

use vstd::prelude::*;

verus! {

/// Exclusive upper bound on timestamps the library handles: the first second
/// of year 10000 UTC.  Every earlier timestamp has a four-digit-year
/// ISO-8601 form, which the snapshot format relies on.
pub const TS_LIMIT: u64 = 253402300800;

/// State kept for one (channel, topic) pair.
#[derive(Clone, Copy)]
pub struct Tracker {
    /// When the topic was last mentioned (UTC seconds since the epoch).
    pub last_mention: u64,
    /// Longest gap in whole days ever observed at a reset; `None` until the
    /// topic has been mentioned at least twice.
    pub record: Option<u64>,
}

impl Tracker {
    /// A tracker is well formed when its timestamp has an ISO-8601 form
    /// with a four-digit year.
    pub open spec fn wf(self) -> bool {
        self.last_mention < TS_LIMIT
    }

    /// The tracker created the first time a topic is addressed.
    pub open spec fn spec_new(now: u64) -> Tracker {
        Tracker { last_mention: now, record: None }
    }

    /// Whole days elapsed since the last mention.
    pub open spec fn spec_days_since(self, now: u64) -> int {
        (now - self.last_mention) / 86400
    }

    /// The tracker after a reset at `now`: the record becomes the maximum of
    /// the old record and the gap observed at the reset, and the last
    /// mention moves to `now`.
    pub open spec fn spec_reset(self, now: u64) -> Tracker {
        Tracker {
            last_mention: now,
            record: Some(max_record(self.record, self.spec_days_since(now))),
        }
    }

    pub fn new(now: u64) -> (t: Tracker)
        requires
            now < TS_LIMIT,
        ensures
            t == Tracker::spec_new(now),
            t.wf(),
    {
        Tracker { last_mention: now, record: None }
    }

    /// Whole days between `now` and the last mention, truncated.
    pub fn days_since_last(&self, now: u64) -> (d: u64)
        requires
            self.last_mention <= now,
        ensures
            d == self.spec_days_since(now),
    {
        (now - self.last_mention) / 86400
    }

    /// `(hours, minutes, seconds)` since the last mention: total elapsed
    /// hours, then elapsed minutes modulo 60, then elapsed seconds modulo
    /// 60.  Used for sub-day precision when no whole day has passed.
    pub fn fine_time_since_last(&self, now: u64) -> (r: (u64, u64, u64))
        requires
            self.last_mention <= now,
        ensures
            r.0 == (now - self.last_mention) / 3600,
            r.1 == ((now - self.last_mention) / 60) % 60,
            r.2 == (now - self.last_mention) % 60,
    {
        let diff = now - self.last_mention;
        (diff / 3600, (diff / 60) % 60, diff % 60)
    }

    /// Record the gap observed at `now`, then move the last mention to
    /// `now`.  The gap is measured against the pre-reset last mention.
    pub fn reset(&mut self, now: u64)
        requires
            old(self).last_mention <= now,
            now < TS_LIMIT,
        ensures
            *final(self) == old(self).spec_reset(now),
            final(self).wf(),
    {
        let current = self.days_since_last(now);
        self.last_mention = now;
        self.record = Some(match self.record {
            None => current,
            Some(r) => if r < current { current } else { r },
        });
    }
}

/// `max(record, Some(gap))` with an absent record losing to any gap.
pub open spec fn max_record(record: Option<u64>, gap: int) -> u64 {
    match record {
        None => gap as u64,
        Some(r) => if r < gap { gap as u64 } else { r },
    }
}

/// The gap in whole days between a mention at `last` and one at `now`.
pub open spec fn spec_gap(last: u64, now: u64) -> u64 {
    ((now - last) / 86400) as u64
}

/// The tracker after a whole sequence of resets, first one first.
pub open spec fn spec_run_resets(t: Tracker, times: Seq<u64>) -> Tracker
    decreases times.len(),
{
    if times.len() == 0 {
        t
    } else {
        spec_run_resets(t.spec_reset(times[0]), times.drop_first())
    }
}

/// A plausible clock: reset times move forward from the tracker's last
/// mention and stay below [`TS_LIMIT`].
pub open spec fn valid_times(t: Tracker, times: Seq<u64>) -> bool {
    &&& times.len() > 0 ==> t.last_mention <= times[0]
    &&& forall|i: int| 0 <= i < times.len() - 1 ==> #[trigger] times[i] <= times[i + 1]
    &&& forall|i: int| 0 <= i < times.len() ==> #[trigger] times[i] < TS_LIMIT
}

/// The largest whole-day gap observed over a sequence of mentions, the
/// previous mention having been at `last`.
pub open spec fn spec_max_gaps(last: u64, times: Seq<u64>) -> u64
    decreases times.len(),
{
    if times.len() == 0 {
        0
    } else {
        let g = spec_gap(last, times[0]);
        let rest = spec_max_gaps(times[0], times.drop_first());
        if g < rest {
            rest
        } else {
            g
        }
    }
}

/// Law: one reset never shrinks the record.
pub proof fn lemma_reset_monotone(t: Tracker, now: u64)
    ensures
        t.spec_reset(now).record is Some,
        t.record matches Some(r) ==> t.spec_reset(now).record matches Some(r2) && r <= r2,
{
}

/// Law: over any sequence of resets, the record always equals the maximum
/// whole-day gap observed at any reset, the initial record (absent
/// counting as nothing) included; and the last mention is the time of the
/// last reset.
pub proof fn lemma_record_is_max_gap(t: Tracker, times: Seq<u64>)
    requires
        valid_times(t, times),
        times.len() > 0,
    ensures
        spec_run_resets(t, times).last_mention == times[times.len() - 1],
        spec_run_resets(t, times).record == Some(
            match t.record {
                None => spec_max_gaps(t.last_mention, times),
                Some(r) => if r < spec_max_gaps(t.last_mention, times) {
                    spec_max_gaps(t.last_mention, times)
                } else {
                    r
                },
            },
        ),
    decreases times.len(),
{
    let t1 = t.spec_reset(times[0]);
    let rest = times.drop_first();
    assert(t1.last_mention == times[0]);
    assert(t1.record == Some(max_record(t.record, t.spec_days_since(times[0]))));
    assert(t.spec_days_since(times[0]) == spec_gap(t.last_mention, times[0]));
    if rest.len() == 0 {
        assert(spec_max_gaps(times[0], rest) == 0);
        assert(spec_run_resets(t1, rest) == t1);
        assert(spec_max_gaps(t.last_mention, times) == spec_gap(t.last_mention, times[0]));
    } else {
        assert(valid_times(t1, rest)) by {
            assert(times[0] <= times[1]);
            assert(rest[0] == times[1]);
            assert(forall|i: int|
                0 <= i < rest.len() - 1 ==> #[trigger] rest[i] == times[i + 1] && rest[i + 1]
                    == times[i + 2]);
            assert(forall|i: int| 0 <= i < rest.len() ==> #[trigger] rest[i] == times[i + 1]);
        }
        lemma_record_is_max_gap(t1, rest);
        assert(spec_run_resets(t, times) == spec_run_resets(t1, rest));
        assert(rest[rest.len() - 1] == times[times.len() - 1]);
        assert(spec_max_gaps(t.last_mention, times) == ({
            let g = spec_gap(t.last_mention, times[0]);
            let m = spec_max_gaps(times[0], rest);
            if g < m {
                m
            } else {
                g
            }
        }));
    }
}

/// Law: after a fresh tracker's first reset and any later ones, the record
/// is exactly the maximum gap observed; before any reset it is absent.
pub proof fn lemma_fresh_record_is_max_gap(now0: u64, times: Seq<u64>)
    requires
        valid_times(Tracker::spec_new(now0), times),
    ensures
        spec_run_resets(Tracker::spec_new(now0), times).record == (if times.len() == 0 {
            None
        } else {
            Some(spec_max_gaps(now0, times))
        }),
{
    if times.len() > 0 {
        lemma_record_is_max_gap(Tracker::spec_new(now0), times);
    }
}

} // verus!
