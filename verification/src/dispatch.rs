//! Handling one inbound message: parse it, mutate the store, and build
//! the bot's reply.

use vstd::prelude::*;
use crate::casefold::{lower_of, lowercase};
use crate::digits::{dec_of, dec2_of, push_dec, push_dec2};
use crate::parser::{spec_parse_command, parse_command};
use crate::store::{
    Store, StoreV, spec_get_or_create, all_mentions_before, has_key, key_index, lemma_key_index,
};
use crate::tracker::{Tracker, TS_LIMIT, spec_gap};

verus! {

/// A notice the bot should send: to whom, and what.
pub struct Reply {
    pub target: String,
    pub text: String,
}

/// The reply to the first mention of a topic.
pub open spec fn spec_first_reply(topic: Seq<char>, tgt: Seq<char>) -> Seq<char> {
    "Now tracking \""@ + topic + "\" for "@ + tgt + "."@
}

/// The reply when at least one whole day has passed.
pub open spec fn spec_days_reply(days: u64, tgt: Seq<char>, topic: Seq<char>, record: u64) -> Seq<
    char,
> {
    "It has been ["@ + dec_of(days as nat) + "] days since "@ + tgt + " discussed \""@ + topic
        + "\". Record: ["@ + dec_of(record as nat) + "]"@
}

/// The reply within the same day, with `H:MM:SS` precision.
pub open spec fn spec_fine_reply(
    h: u64,
    m: u64,
    s: u64,
    tgt: Seq<char>,
    topic: Seq<char>,
    record: u64,
) -> Seq<char> {
    "It has been "@ + dec_of(h as nat) + ":"@ + dec2_of(m as nat) + ":"@ + dec2_of(s as nat)
        + " since "@ + tgt + " discussed \""@ + topic + "\". Record: ["@ + dec_of(record as nat)
        + "] days"@
}

/// The store with the tracker at `(ci, ti)` replaced by `t`.
pub open spec fn update_tracker_at(v: StoreV, ci: int, ti: int, t: Tracker) -> StoreV {
    v.update(ci, (v[ci].0, v[ci].1.update(ti, (v[ci].1[ti].0, t))))
}

/// What one recognized command does: the store after the event and the
/// reply text.  The store key is the lowercase form of the body; a first
/// mention starts the record at zero without a reset, a later mention
/// reports the gap (in whole days, or `H:MM:SS` within a day) and the
/// record, then resets the tracker.
pub open spec fn spec_outcome(v: StoreV, rt: Seq<char>, body: Seq<char>, now: u64) -> (
    StoreV,
    Seq<char>,
) {
    let key = lower_of(body);
    let (v1, idx) = spec_get_or_create(v, rt, key, now);
    let t = v1[idx.0].1[idx.1].1;
    match t.record {
        None => (
            update_tracker_at(
                v1,
                idx.0,
                idx.1,
                Tracker { last_mention: t.last_mention, record: Some(0u64) },
            ),
            spec_first_reply(body, rt),
        ),
        Some(rec) => {
            let days = spec_gap(t.last_mention, now);
            let text = if days == 0 {
                spec_fine_reply(
                    ((now - t.last_mention) / 3600) as u64,
                    (((now - t.last_mention) / 60) % 60) as u64,
                    ((now - t.last_mention) % 60) as u64,
                    rt,
                    body,
                    rec,
                )
            } else {
                spec_days_reply(days, rt, body, rec)
            };
            (update_tracker_at(v1, idx.0, idx.1, t.spec_reset(now)), text)
        },
    }
}

/// Law: topic identity is case-insensitive.  Two command bodies with the
/// same lowercase form change the store in exactly the same way.
pub proof fn lemma_topic_case_insensitive(
    v: StoreV,
    rt: Seq<char>,
    b1: Seq<char>,
    b2: Seq<char>,
    now: u64,
)
    requires
        lower_of(b1) == lower_of(b2),
    ensures
        spec_outcome(v, rt, b1, now).0 == spec_outcome(v, rt, b2, now).0,
{
}

/// Handle one inbound message against the store.  A message that is no
/// addressed command leaves the store alone and yields no reply; a
/// command mutates the store and yields the notice to send, per
/// [`spec_outcome`].
pub fn handle_message(
    store: &mut Store,
    now: u64,
    bot_nick: &str,
    target: &str,
    source_nick: &str,
    text: &str,
) -> (r: Option<Reply>)
    requires
        old(store).wf(),
        all_mentions_before(old(store)@, now),
        now < TS_LIMIT,
    ensures
        final(store).wf(),
        all_mentions_before(final(store)@, now),
        spec_parse_command(bot_nick@, target@, source_nick@, text@) is None ==> final(store)@
            == old(store)@ && r is None,
        spec_parse_command(bot_nick@, target@, source_nick@, text@) matches Some(cmd) ==> ({
            let (v2, reply) = spec_outcome(old(store)@, cmd.0, cmd.1, now);
            &&& r matches Some(rep)
            &&& rep.target@ == cmd.0
            &&& rep.text@ == reply
            &&& final(store)@ == v2
        }),
{
    match parse_command(bot_nick, target, source_nick, text) {
        None => None,
        Some((reply_target, body)) => {
            let key = lowercase(body.as_str());
            let ghost v = store@;
            let ghost rt = reply_target@;
            let ghost keyv = lower_of(body@);
            let (ci, ti) = store.get_or_create(reply_target.as_str(), key.as_str(), now);
            proof {
                lemma_goc_keeps_mentions_before(v, rt, keyv, now);
            }
            let t = store.tracker_at(ci, ti);
            assert(t.last_mention <= now);
            match t.record {
                None => {
                    store.start_record_at(ci, ti);
                    let text_out = format_first_reply(body.as_str(), reply_target.as_str());
                    proof {
                        lemma_update_keeps_mentions_before(
                            spec_get_or_create(v, rt, keyv, now).0,
                            ci as int,
                            ti as int,
                            Tracker { last_mention: t.last_mention, record: Some(0u64) },
                            now,
                        );
                    }
                    Some(Reply { target: reply_target, text: text_out })
                },
                Some(rec) => {
                    let days = t.days_since_last(now);
                    let text_out = if days == 0 {
                        let (h, m, s) = t.fine_time_since_last(now);
                        format_fine_reply(h, m, s, reply_target.as_str(), body.as_str(), rec)
                    } else {
                        format_days_reply(days, reply_target.as_str(), body.as_str(), rec)
                    };
                    store.reset_at(ci, ti, now);
                    proof {
                        lemma_update_keeps_mentions_before(
                            spec_get_or_create(v, rt, keyv, now).0,
                            ci as int,
                            ti as int,
                            t.spec_reset(now),
                            now,
                        );
                    }
                    Some(Reply { target: reply_target, text: text_out })
                },
            }
        },
    }
}

/// `get_or_create` hands out no mention later than the clock it was given.
proof fn lemma_goc_keeps_mentions_before(v: StoreV, ch: Seq<char>, k: Seq<char>, now: u64)
    requires
        all_mentions_before(v, now),
    ensures
        all_mentions_before(spec_get_or_create(v, ch, k, now).0, now),
{
    let v1 = spec_get_or_create(v, ch, k, now).0;
    lemma_key_index(v, ch);
    assert forall|a: int, b: int|
        0 <= a < v1.len() && 0 <= b < v1[a].1.len() implies (#[trigger] v1[a].1[b]).1.last_mention
        <= now by {
        if has_key(v, ch) {
            let ci = key_index(v, ch);
            let ts = v[ci].1;
            lemma_key_index(ts, k);
            if a != ci {
                assert(v1[a] == v[a]);
            } else {
                if has_key(ts, k) {
                    assert(v1[a].1 == ts);
                } else {
                    if b < ts.len() {
                        assert(v1[a].1[b] == ts[b]);
                    } else {
                        assert(v1[a].1[b].1 == Tracker::spec_new(now));
                    }
                }
            }
        } else {
            if a < v.len() {
                assert(v1[a] == v[a]);
            } else {
                assert(v1[a].1[b].1 == Tracker::spec_new(now));
            }
        }
    }
}

/// Replacing one tracker with one whose mention is not after the clock
/// keeps every mention at or before the clock.
proof fn lemma_update_keeps_mentions_before(v: StoreV, ci: int, ti: int, t: Tracker, now: u64)
    requires
        all_mentions_before(v, now),
        0 <= ci < v.len(),
        0 <= ti < v[ci].1.len(),
        t.last_mention <= now,
    ensures
        all_mentions_before(update_tracker_at(v, ci, ti, t), now),
{
    let v2 = update_tracker_at(v, ci, ti, t);
    assert forall|a: int, b: int|
        0 <= a < v2.len() && 0 <= b < v2[a].1.len() implies (#[trigger] v2[a].1[b]).1.last_mention
        <= now by {
        if a != ci {
            assert(v2[a] == v[a]);
        } else if b != ti {
            assert(v2[a].1[b] == v[a].1[b]);
        }
    }
}

/// Build the first-mention reply, per [`spec_first_reply`].
fn format_first_reply(topic: &str, tgt: &str) -> (s: String)
    ensures
        s@ == spec_first_reply(topic@, tgt@),
{
    let mut s = String::new();
    s.append("Now tracking \"");
    s.append(topic);
    s.append("\" for ");
    s.append(tgt);
    s.append(".");
    proof {
        assert(s@ =~= spec_first_reply(topic@, tgt@));
    }
    s
}

/// Build the whole-days reply, per [`spec_days_reply`].
fn format_days_reply(days: u64, tgt: &str, topic: &str, record: u64) -> (s: String)
    ensures
        s@ == spec_days_reply(days, tgt@, topic@, record),
{
    let mut s = String::new();
    s.append("It has been [");
    push_dec(&mut s, days);
    s.append("] days since ");
    s.append(tgt);
    s.append(" discussed \"");
    s.append(topic);
    s.append("\". Record: [");
    push_dec(&mut s, record);
    s.append("]");
    proof {
        assert(s@ =~= spec_days_reply(days, tgt@, topic@, record));
    }
    s
}

/// Build the same-day reply, per [`spec_fine_reply`].
fn format_fine_reply(h: u64, m: u64, sec: u64, tgt: &str, topic: &str, record: u64) -> (s: String)
    ensures
        s@ == spec_fine_reply(h, m, sec, tgt@, topic@, record),
{
    let mut s = String::new();
    s.append("It has been ");
    push_dec(&mut s, h);
    s.append(":");
    push_dec2(&mut s, m);
    s.append(":");
    push_dec2(&mut s, sec);
    s.append(" since ");
    s.append(tgt);
    s.append(" discussed \"");
    s.append(topic);
    s.append("\". Record: [");
    push_dec(&mut s, record);
    s.append("] days");
    proof {
        assert(s@ =~= spec_fine_reply(h, m, sec, tgt@, topic@, record));
    }
    s
}

} // verus!
