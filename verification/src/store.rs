//! The two-level mapping from channel name to topic key to [`Tracker`],
//! with creation on first use.
//!
//! Channels and topics are kept as sequences of entries with pairwise
//! distinct keys; the view of a store is the sequence of
//! `(channel name, topic entries)` pairs, each topic entry a
//! `(topic key, tracker)` pair.

use vstd::prelude::*;
use crate::text::str_eq;
use crate::tracker::Tracker;

verus! {

/// One tracked topic inside a channel.
pub struct TopicEntry {
    /// The lowercased topic string that identifies the topic.
    pub key: String,
    pub tracker: Tracker,
}

/// All topics tracked in one channel.
pub struct ChannelEntry {
    /// The channel name, exact case.
    pub name: String,
    pub topics: Vec<TopicEntry>,
}

/// The whole store: every channel with its tracked topics.
pub struct Store {
    pub channels: Vec<ChannelEntry>,
}

/// The view of a whole store: `(channel name, topic entries)` pairs.
pub type StoreV = Seq<(Seq<char>, Seq<(Seq<char>, Tracker)>)>;

/// The view of one channel's topics: `(key, tracker)` pairs in order.
pub open spec fn topics_view(ts: Seq<TopicEntry>) -> Seq<(Seq<char>, Tracker)> {
    ts.map_values(|e: TopicEntry| (e.key@, e.tracker))
}

/// The view of the whole store: `(name, topics)` pairs in order.
pub open spec fn store_view(cs: Seq<ChannelEntry>) -> Seq<(Seq<char>, Seq<(Seq<char>, Tracker)>)> {
    cs.map_values(|c: ChannelEntry| (c.name@, topics_view(c.topics@)))
}

impl View for Store {
    type V = Seq<(Seq<char>, Seq<(Seq<char>, Tracker)>)>;

    open spec fn view(&self) -> Self::V {
        store_view(self.channels@)
    }
}

/// Whether an association sequence holds `k` among its keys.
pub open spec fn has_key<T>(s: Seq<(Seq<char>, T)>, k: Seq<char>) -> bool {
    exists|i: int| 0 <= i < s.len() && s[i].0 == k
}

/// The first position whose key is `k`, or `s.len()` when there is none.
pub open spec fn key_index<T>(s: Seq<(Seq<char>, T)>, k: Seq<char>) -> int
    decreases s.len(),
{
    if s.len() == 0 {
        0
    } else if s[0].0 == k {
        0
    } else {
        1 + key_index(s.drop_first(), k)
    }
}

pub proof fn lemma_key_index<T>(s: Seq<(Seq<char>, T)>, k: Seq<char>)
    ensures
        0 <= key_index(s, k) <= s.len(),
        key_index(s, k) < s.len() ==> s[key_index(s, k)].0 == k && has_key(s, k),
        forall|i: int| 0 <= i < key_index(s, k) ==> s[i].0 != k,
        key_index(s, k) == s.len() ==> !has_key(s, k),
    decreases s.len(),
{
    if s.len() == 0 {
        assert(!has_key(s, k));
    } else if s[0].0 == k {
    } else {
        let t = s.drop_first();
        lemma_key_index(t, k);
        assert(forall|i: int| 0 <= i < key_index(t, k) ==> (#[trigger] t[i]).0 != k);
        assert forall|i: int| 0 <= i < key_index(s, k) implies s[i].0 != k by {
            if i > 0 {
                assert(s[i] == t[i - 1]);
            }
        }
        if key_index(s, k) == s.len() {
            assert(!has_key(t, k));
            assert forall|i: int| 0 <= i < s.len() implies s[i].0 != k by {
                if i > 0 {
                    assert(s[i] == t[i - 1]);
                }
            }
        } else {
            assert(s[key_index(s, k)] == t[key_index(t, k)]);
        }
    }
}

/// A position that holds `k`, with no earlier one, is the key's index.
pub proof fn lemma_key_index_unique<T>(s: Seq<(Seq<char>, T)>, k: Seq<char>, i: int)
    requires
        0 <= i <= s.len(),
        i < s.len() ==> s[i].0 == k,
        i == s.len() ==> !has_key(s, k),
        forall|j: int| 0 <= j < i ==> s[j].0 != k,
    ensures
        key_index(s, k) == i,
    decreases s.len(),
{
    lemma_key_index(s, k);
    let ki = key_index(s, k);
    if i < s.len() {
        assert(has_key(s, k));
        if ki < i {
            assert(s[ki].0 != k);
        }
        if ki > i {
            assert(s[i].0 != k);
        }
    }
}

/// The topics of one channel are well formed: pairwise distinct keys,
/// every tracker well formed.
pub open spec fn topics_wf(ts: Seq<(Seq<char>, Tracker)>) -> bool {
    &&& forall|i: int, j: int| 0 <= i < j < ts.len() ==> ts[i].0 != ts[j].0
    &&& forall|i: int| 0 <= i < ts.len() ==> (#[trigger] ts[i]).1.wf()
}

/// The store is well formed: pairwise distinct channel names, every
/// channel's topics well formed.
pub open spec fn store_wf_v(v: Seq<(Seq<char>, Seq<(Seq<char>, Tracker)>)>) -> bool {
    &&& forall|i: int, j: int| 0 <= i < j < v.len() ==> v[i].0 != v[j].0
    &&& forall|i: int| 0 <= i < v.len() ==> topics_wf((#[trigger] v[i]).1)
}

/// What `get_or_create` does to one channel's topics: an existing key is
/// found, a missing one is appended with a fresh tracker.
pub open spec fn spec_goc_topics(ts: Seq<(Seq<char>, Tracker)>, k: Seq<char>, now: u64) -> (Seq<
    (Seq<char>, Tracker),
>, int) {
    if has_key(ts, k) {
        (ts, key_index(ts, k))
    } else {
        (ts.push((k, Tracker::spec_new(now))), ts.len() as int)
    }
}

/// What `get_or_create` does to the store: an existing channel keeps its
/// place and its topics are extended as needed; a missing channel is
/// appended holding just the fresh topic.
pub open spec fn spec_get_or_create(
    v: Seq<(Seq<char>, Seq<(Seq<char>, Tracker)>)>,
    ch: Seq<char>,
    k: Seq<char>,
    now: u64,
) -> (Seq<(Seq<char>, Seq<(Seq<char>, Tracker)>)>, (int, int)) {
    if has_key(v, ch) {
        let ci = key_index(v, ch);
        let (ts2, ti) = spec_goc_topics(v[ci].1, k, now);
        (v.update(ci, (ch, ts2)), (ci, ti))
    } else {
        (v.push((ch, seq![(k, Tracker::spec_new(now))])), (v.len() as int, 0))
    }
}

impl Store {
    pub open spec fn wf(&self) -> bool {
        store_wf_v(self@)
    }

    /// A position `(ci, ti)` that addresses a topic entry of the store.
    pub open spec fn valid_at(&self, ci: int, ti: int) -> bool {
        0 <= ci < self@.len() && 0 <= ti < self@[ci].1.len()
    }

    /// An empty store: the expected state of a first run, before any
    /// topic has been addressed.
    pub fn new() -> (s: Store)
        ensures
            s@ == Seq::<(Seq<char>, Seq<(Seq<char>, Tracker)>)>::empty(),
            s.wf(),
    {
        let s = Store { channels: Vec::new() };
        proof {
            assert(s@ =~= Seq::<(Seq<char>, Seq<(Seq<char>, Tracker)>)>::empty());
        }
        s
    }

    /// The position of channel `name`, or the channel count when absent.
    fn find_channel(&self, name: &str) -> (r: usize)
        ensures
            r as int == key_index(self@, name@),
    {
        let n = self.channels.len();
        let mut i: usize = 0;
        while i < n
            invariant
                0 <= i <= n,
                n == self@.len(),
                n == self.channels@.len(),
                forall|j: int| 0 <= j < i ==> self@[j].0 != name@,
            decreases n - i,
        {
            if str_eq(self.channels[i].name.as_str(), name) {
                proof {
                    assert(self@[i as int].0 == name@);
                    lemma_key_index_unique(self@, name@, i as int);
                }
                return i;
            }
            assert(self@[i as int].0 != name@);
            i = i + 1;
        }
        proof {
            assert forall|j: int| !(0 <= j < self@.len() && self@[j].0 == name@) by {}
            lemma_key_index_unique(self@, name@, n as int);
        }
        n
    }

    /// The position of topic `k` in `topics`, or the topic count when absent.
    fn find_topic(topics: &Vec<TopicEntry>, k: &str) -> (r: usize)
        ensures
            r as int == key_index(topics_view(topics@), k@),
    {
        let n = topics.len();
        let mut i: usize = 0;
        while i < n
            invariant
                0 <= i <= n,
                n == topics@.len(),
                forall|j: int| 0 <= j < i ==> topics_view(topics@)[j].0 != k@,
            decreases n - i,
        {
            if str_eq(topics[i].key.as_str(), k) {
                proof {
                    assert(topics_view(topics@)[i as int].0 == k@);
                    lemma_key_index_unique(topics_view(topics@), k@, i as int);
                }
                return i;
            }
            assert(topics_view(topics@)[i as int].0 != k@);
            i = i + 1;
        }
        proof {
            lemma_key_index_unique(topics_view(topics@), k@, n as int);
        }
        n
    }

    /// Return the position of the tracker for `(channel, key)`, creating
    /// the channel and the tracker if absent, per [`spec_get_or_create`].
    pub fn get_or_create(&mut self, channel: &str, key: &str, now: u64) -> (r: (usize, usize))
        requires
            old(self).wf(),
            now < crate::tracker::TS_LIMIT,
        ensures
            ({
                let (v2, idx) = spec_get_or_create(old(self)@, channel@, key@, now);
                final(self)@ == v2 && r.0 as int == idx.0 && r.1 as int == idx.1
            }),
            final(self).wf(),
            final(self).valid_at(r.0 as int, r.1 as int),
            final(self)@[r.0 as int].0 == channel@,
            final(self)@[r.0 as int].1[r.1 as int].0 == key@,
    {
        proof {
            lemma_key_index(self@, channel@);
        }
        let ci = self.find_channel(channel);
        if ci < self.channels.len() {
            let ghost ts = self@[ci as int].1;
            proof {
                lemma_key_index(ts, key@);
            }
            let ti = Self::find_topic(&self.channels[ci].topics, key);
            if ti < self.channels[ci].topics.len() {
                proof {
                    assert(self@ =~~= old(self)@.update(ci as int, (
                        channel@,
                        old(self)@[ci as int].1,
                    )));
                }
                (ci, ti)
            } else {
                let entry = TopicEntry { key: key.to_owned(), tracker: Tracker::new(now) };
                self.channels[ci].topics.push(entry);
                proof {
                    let v2 = spec_get_or_create(old(self)@, channel@, key@, now).0;
                    assert(topics_view(self.channels@[ci as int].topics@) =~~= ts.push((
                        key@,
                        Tracker::spec_new(now),
                    )));
                    assert(self@ =~~= v2);
                    assert(store_wf_v(v2)) by {
                        lemma_goc_preserves_wf(old(self)@, channel@, key@, now);
                    }
                }
                (ci, ti)
            }
        } else {
            let mut topics: Vec<TopicEntry> = Vec::new();
            topics.push(TopicEntry { key: key.to_owned(), tracker: Tracker::new(now) });
            let entry = ChannelEntry { name: channel.to_owned(), topics };
            proof {
                assert(topics_view(entry.topics@) =~~= seq![(key@, Tracker::spec_new(now))]);
            }
            self.channels.push(entry);
            proof {
                let v2 = spec_get_or_create(old(self)@, channel@, key@, now).0;
                assert(self@ =~~= v2);
                assert(store_wf_v(v2)) by {
                    lemma_goc_preserves_wf(old(self)@, channel@, key@, now);
                }
            }
            (ci, 0)
        }
    }

    /// The tracker at position `(ci, ti)`.
    pub fn tracker_at(&self, ci: usize, ti: usize) -> (t: Tracker)
        requires
            self.valid_at(ci as int, ti as int),
        ensures
            t == self@[ci as int].1[ti as int].1,
    {
        self.channels[ci].topics[ti].tracker
    }

    /// Start the record of the tracker at `(ci, ti)` at zero days, as the
    /// first mention of its topic does.  Nothing else changes.
    pub fn start_record_at(&mut self, ci: usize, ti: usize)
        requires
            old(self).wf(),
            old(self).valid_at(ci as int, ti as int),
        ensures
            final(self)@ == old(self)@.update(
                ci as int,
                (
                    old(self)@[ci as int].0,
                    old(self)@[ci as int].1.update(
                        ti as int,
                        (
                            old(self)@[ci as int].1[ti as int].0,
                            Tracker {
                                last_mention: old(self)@[ci as int].1[ti as int].1.last_mention,
                                record: Some(0u64),
                            },
                        ),
                    ),
                ),
            ),
            final(self).wf(),
    {
        self.channels[ci].topics[ti].tracker.record = Some(0);
        proof {
            let v2 = old(self)@.update(
                ci as int,
                (
                    old(self)@[ci as int].0,
                    old(self)@[ci as int].1.update(
                        ti as int,
                        (
                            old(self)@[ci as int].1[ti as int].0,
                            Tracker {
                                last_mention: old(self)@[ci as int].1[ti as int].1.last_mention,
                                record: Some(0u64),
                            },
                        ),
                    ),
                ),
            );
            assert(self@ =~~= v2);
            lemma_update_tracker_preserves_wf(old(self)@, ci as int, ti as int, v2);
        }
    }

    /// Reset the tracker at `(ci, ti)` against `now`, per
    /// [`Tracker::spec_reset`].  Nothing else changes.
    pub fn reset_at(&mut self, ci: usize, ti: usize, now: u64)
        requires
            old(self).wf(),
            old(self).valid_at(ci as int, ti as int),
            old(self)@[ci as int].1[ti as int].1.last_mention <= now,
            now < crate::tracker::TS_LIMIT,
        ensures
            final(self)@ == old(self)@.update(
                ci as int,
                (
                    old(self)@[ci as int].0,
                    old(self)@[ci as int].1.update(
                        ti as int,
                        (
                            old(self)@[ci as int].1[ti as int].0,
                            old(self)@[ci as int].1[ti as int].1.spec_reset(now),
                        ),
                    ),
                ),
            ),
            final(self).wf(),
    {
        self.channels[ci].topics[ti].tracker.reset(now);
        proof {
            let v2 = old(self)@.update(
                ci as int,
                (
                    old(self)@[ci as int].0,
                    old(self)@[ci as int].1.update(
                        ti as int,
                        (
                            old(self)@[ci as int].1[ti as int].0,
                            old(self)@[ci as int].1[ti as int].1.spec_reset(now),
                        ),
                    ),
                ),
            );
            assert(self@ =~~= v2);
            lemma_update_tracker_preserves_wf(old(self)@, ci as int, ti as int, v2);
        }
    }

    /// Whether every tracked last mention lies at or before `now`.  The
    /// dispatcher requires this of the clock it is handed.
    pub fn all_before(&self, now: u64) -> (r: bool)
        ensures
            r == all_mentions_before(self@, now),
    {
        let n = self.channels.len();
        let mut i: usize = 0;
        while i < n
            invariant
                0 <= i <= n,
                n == self@.len(),
                n == self.channels@.len(),
                forall|ci: int, ti: int|
                    0 <= ci < i && 0 <= ti < self@[ci].1.len() ==> (#[trigger] self@[ci].1[ti]).1.last_mention
                        <= now,
            decreases n - i,
        {
            let m = self.channels[i].topics.len();
            let mut j: usize = 0;
            while j < m
                invariant
                    0 <= j <= m,
                    0 <= i < n,
                    n == self@.len(),
                    n == self.channels@.len(),
                    m == self@[i as int].1.len(),
                    m == self.channels@[i as int].topics@.len(),
                    forall|ci: int, ti: int|
                        0 <= ci < i && 0 <= ti < self@[ci].1.len() ==> (
                        #[trigger] self@[ci].1[ti]).1.last_mention <= now,
                    forall|ti: int|
                        0 <= ti < j ==> (#[trigger] self@[i as int].1[ti]).1.last_mention <= now,
                decreases m - j,
            {
                if self.channels[i].topics[j].tracker.last_mention > now {
                    assert(self@[i as int].1[j as int].1.last_mention > now);
                    return false;
                }
                assert(self@[i as int].1[j as int].1.last_mention <= now);
                j = j + 1;
            }
            i = i + 1;
        }
        true
    }
}

/// Whether every last mention in the store lies at or before `now`.
pub open spec fn all_mentions_before(
    v: Seq<(Seq<char>, Seq<(Seq<char>, Tracker)>)>,
    now: u64,
) -> bool {
    forall|ci: int, ti: int|
        0 <= ci < v.len() && 0 <= ti < v[ci].1.len() ==> (#[trigger] v[ci].1[ti]).1.last_mention
            <= now
}

proof fn lemma_update_tracker_preserves_wf(
    v: Seq<(Seq<char>, Seq<(Seq<char>, Tracker)>)>,
    ci: int,
    ti: int,
    v2: Seq<(Seq<char>, Seq<(Seq<char>, Tracker)>)>,
)
    requires
        store_wf_v(v),
        0 <= ci < v.len(),
        0 <= ti < v[ci].1.len(),
        v2 == v.update(
            ci,
            (v[ci].0, v[ci].1.update(ti, (v[ci].1[ti].0, v2[ci].1[ti].1))),
        ),
        v2[ci].1[ti].1.wf(),
    ensures
        store_wf_v(v2),
{
    assert forall|i: int, j: int| 0 <= i < j < v2.len() implies v2[i].0 != v2[j].0 by {
        assert(v2[i].0 == v[i].0 && v2[j].0 == v[j].0);
    }
    assert forall|i: int| 0 <= i < v2.len() implies topics_wf((#[trigger] v2[i]).1) by {
        if i != ci {
            assert(v2[i] == v[i]);
        } else {
            let ts = v[ci].1;
            let ts2 = v2[ci].1;
            assert forall|a: int, b: int| 0 <= a < b < ts2.len() implies ts2[a].0 != ts2[b].0 by {
                assert(ts2[a].0 == ts[a].0 && ts2[b].0 == ts[b].0);
            }
            assert forall|a: int| 0 <= a < ts2.len() implies (#[trigger] ts2[a]).1.wf() by {
                if a != ti {
                    assert(ts2[a] == ts[a]);
                }
            }
        }
    }
}

proof fn lemma_goc_preserves_wf(
    v: Seq<(Seq<char>, Seq<(Seq<char>, Tracker)>)>,
    ch: Seq<char>,
    k: Seq<char>,
    now: u64,
)
    requires
        store_wf_v(v),
        now < crate::tracker::TS_LIMIT,
    ensures
        store_wf_v(spec_get_or_create(v, ch, k, now).0),
{
    lemma_key_index(v, ch);
    let v2 = spec_get_or_create(v, ch, k, now).0;
    if has_key(v, ch) {
        let ci = key_index(v, ch);
        let ts = v[ci].1;
        lemma_key_index(ts, k);
        if has_key(ts, k) {
            assert(v2 =~~= v);
        } else {
            let ts2 = ts.push((k, Tracker::spec_new(now)));
            assert forall|a: int, b: int| 0 <= a < b < ts2.len() implies ts2[a].0 != ts2[b].0 by {
                if b < ts.len() {
                    assert(ts2[a] == ts[a] && ts2[b] == ts[b]);
                } else {
                    assert(ts2[a] == ts[a]);
                    assert(!has_key(ts, k));
                    assert(ts[a].0 != k);
                }
            }
            assert forall|a: int| 0 <= a < ts2.len() implies (#[trigger] ts2[a]).1.wf() by {
                if a < ts.len() {
                    assert(ts2[a] == ts[a]);
                }
            }
            assert forall|i: int, j: int| 0 <= i < j < v2.len() implies v2[i].0 != v2[j].0 by {
                assert(v2[i].0 == v[i].0 && v2[j].0 == v[j].0);
            }
            assert forall|i: int| 0 <= i < v2.len() implies topics_wf((#[trigger] v2[i]).1) by {
                if i != ci {
                    assert(v2[i] == v[i]);
                }
            }
        }
    } else {
        let ts2 = seq![(k, Tracker::spec_new(now))];
        assert(topics_wf(ts2));
        assert forall|i: int, j: int| 0 <= i < j < v2.len() implies v2[i].0 != v2[j].0 by {
            if j < v.len() {
                assert(v2[i] == v[i] && v2[j] == v[j]);
            } else {
                assert(v2[i] == v[i]);
                assert(!has_key(v, ch));
                assert(v[i].0 != ch);
            }
        }
        assert forall|i: int| 0 <= i < v2.len() implies topics_wf((#[trigger] v2[i]).1) by {
            if i < v.len() {
                assert(v2[i] == v[i]);
            }
        }
    }
}

/// Law: `get_or_create` is idempotent.  A second call with the same
/// channel and key, whatever clock it is handed, leaves the store as the
/// first call left it and returns the same position.
pub proof fn lemma_get_or_create_idempotent(
    v: Seq<(Seq<char>, Seq<(Seq<char>, Tracker)>)>,
    ch: Seq<char>,
    k: Seq<char>,
    now1: u64,
    now2: u64,
)
    ensures
        ({
            let (v1, idx1) = spec_get_or_create(v, ch, k, now1);
            let (v2, idx2) = spec_get_or_create(v1, ch, k, now2);
            v2 == v1 && idx2 == idx1
        }),
{
    lemma_key_index(v, ch);
    let (v1, idx1) = spec_get_or_create(v, ch, k, now1);
    if has_key(v, ch) {
        let ci = key_index(v, ch);
        let ts = v[ci].1;
        lemma_key_index(ts, k);
        if has_key(ts, k) {
            assert(v1 =~~= v.update(ci, (ch, ts)));
            assert(v1[ci].0 == ch);
            assert(forall|j: int| 0 <= j < ci ==> v1[j] == v[j]);
            lemma_key_index_unique(v1, ch, ci);
            assert(has_key(v1, ch));
            lemma_key_index(v1[ci].1, k);
            assert(spec_get_or_create(v1, ch, k, now2).0 =~~= v1);
        } else {
            let ts2 = ts.push((k, Tracker::spec_new(now1)));
            assert(v1[ci].0 == ch);
            assert(forall|j: int| 0 <= j < ci ==> v1[j] == v[j]);
            lemma_key_index_unique(v1, ch, ci);
            assert(v1[ci].1 == ts2);
            assert(ts2[ts.len() as int].0 == k);
            assert(has_key(ts2, k));
            lemma_key_index(ts2, k);
            assert forall|j: int| 0 <= j < ts.len() implies ts2[j].0 != k by {
                assert(ts2[j] == ts[j]);
                assert(!has_key(ts, k));
            }
            lemma_key_index_unique(ts2, k, ts.len() as int);
            assert(spec_get_or_create(v1, ch, k, now2).0 =~~= v1.update(ci, (ch, ts2)));
            assert(v1.update(ci, (ch, ts2)) =~~= v1);
        }
    } else {
        let ci = v.len() as int;
        let ts2 = seq![(k, Tracker::spec_new(now1))];
        assert(v1[ci].0 == ch);
        assert forall|j: int| 0 <= j < ci implies v1[j].0 != ch by {
            assert(v1[j] == v[j]);
            assert(!has_key(v, ch));
        }
        lemma_key_index_unique(v1, ch, ci);
        assert(has_key(v1, ch));
        assert(v1[ci].1 == ts2);
        assert(ts2[0].0 == k);
        assert(has_key(ts2, k));
        lemma_key_index_unique(ts2, k, 0);
        assert(spec_get_or_create(v1, ch, k, now2).0 =~~= v1.update(ci, (ch, ts2)));
        assert(v1.update(ci, (ch, ts2)) =~~= v1);
    }
}

} // verus!
