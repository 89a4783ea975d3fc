//! The snapshot format: a verified encoder and decoder for the store.
//!
//! The snapshot is a line-oriented text rendering of the whole store.
//! Numbers are decimal lines; strings are length-prefixed:
//!
//! ```text
//! <channel count>\n
//! then per channel:  <name length>\n<name>\n<topic count>\n
//! then per topic:    <key length>\n<key>\n<19>\n<ISO-8601 time>\n<record>\n
//! ```
//!
//! where `<record>` is the day count, or `-` while no record exists.
//! The codec is exact both ways: decoding gives back whatever store was
//! encoded, and accepts nothing that is not the encoding of some store.

use vstd::prelude::*;
use crate::digits::{
    dec_of, val_of, is_digit, digit_val, is_canon_digits, lemma_canon_unique, lemma_dec_of_canon,
    lemma_val_of_take_le, push_dec,
};
use crate::store::{
    Store, StoreV, ChannelEntry, TopicEntry, topics_view, store_view, topics_wf, store_wf_v,
};
use crate::timefmt::{iso_of, ts_to_iso, iso_to_ts};
use crate::tracker::{Tracker, TS_LIMIT};
use crate::text::str_eq;

verus! {

/// Whether `p` occurs in `s` starting at `pos`.
pub open spec fn is_prefix_at(s: Seq<char>, pos: int, p: Seq<char>) -> bool {
    &&& 0 <= pos
    &&& pos + p.len() <= s.len()
    &&& s.subrange(pos, pos + p.len()) == p
}

/// A concatenation sits at `pos` exactly when its parts sit there in turn.
pub proof fn lemma_prefix_split(s: Seq<char>, pos: int, a: Seq<char>, b: Seq<char>)
    ensures
        is_prefix_at(s, pos, a + b) <==> (is_prefix_at(s, pos, a) && is_prefix_at(
            s,
            pos + a.len(),
            b,
        )),
{
    if is_prefix_at(s, pos, a + b) {
        assert forall|k: int| 0 <= k < a.len() implies s.subrange(pos, pos + a.len())[k] == a[k] by {
            assert(s.subrange(pos, pos + (a + b).len())[k] == s[pos + k]);
            assert((a + b)[k] == a[k]);
        }
        assert(s.subrange(pos, pos + a.len()) =~= a);
        assert forall|k: int| 0 <= k < b.len() implies s.subrange(
            pos + a.len(),
            pos + a.len() + b.len(),
        )[k] == b[k] by {
            assert(s.subrange(pos, pos + (a + b).len())[a.len() + k] == s[pos + a.len() + k]);
            assert((a + b)[a.len() + k] == b[k]);
        }
        assert(s.subrange(pos + a.len(), pos + a.len() + b.len()) =~= b);
    }
    if is_prefix_at(s, pos, a) && is_prefix_at(s, pos + a.len(), b) {
        assert(s.subrange(pos, pos + (a + b).len()) =~= a + b);
    }
}

/// A number as a line: its digits, then a newline.
pub open spec fn enc_nat(n: nat) -> Seq<char> {
    dec_of(n) + seq!['\n']
}

/// A string: its length as a line, its characters, a newline.
pub open spec fn enc_str(s: Seq<char>) -> Seq<char> {
    enc_nat(s.len()) + s + seq!['\n']
}

/// A record: its day count as a line, or `-` while absent.
pub open spec fn enc_rec(rec: Option<u64>) -> Seq<char> {
    match rec {
        None => seq!['-', '\n'],
        Some(d) => enc_nat(d as nat),
    }
}

/// A tracker: its last mention in ISO-8601 form, then its record.
pub open spec fn enc_tracker(t: Tracker) -> Seq<char> {
    enc_str(iso_of(t.last_mention)) + enc_rec(t.record)
}

/// One topic: its key, then its tracker.
pub open spec fn enc_topic(e: (Seq<char>, Tracker)) -> Seq<char> {
    enc_str(e.0) + enc_tracker(e.1)
}

/// A channel's topics, in order.
pub open spec fn enc_topics(ts: Seq<(Seq<char>, Tracker)>) -> Seq<char>
    decreases ts.len(),
{
    if ts.len() == 0 {
        Seq::<char>::empty()
    } else {
        enc_topic(ts[0]) + enc_topics(ts.drop_first())
    }
}

/// One channel: its name, its topic count, its topics.
pub open spec fn enc_chan(c: (Seq<char>, Seq<(Seq<char>, Tracker)>)) -> Seq<char> {
    enc_str(c.0) + enc_nat(c.1.len()) + enc_topics(c.1)
}

/// The store's channels, in order.
pub open spec fn enc_chans(v: StoreV) -> Seq<char>
    decreases v.len(),
{
    if v.len() == 0 {
        Seq::<char>::empty()
    } else {
        enc_chan(v[0]) + enc_chans(v.drop_first())
    }
}

/// The whole snapshot: the channel count, then the channels.
pub open spec fn spec_encode(v: StoreV) -> Seq<char> {
    enc_nat(v.len()) + enc_chans(v)
}

/// The topics encoding splits at any point.
pub proof fn lemma_enc_topics_split(ts: Seq<(Seq<char>, Tracker)>, i: int)
    requires
        0 <= i <= ts.len(),
    ensures
        enc_topics(ts) == enc_topics(ts.take(i)) + enc_topics(ts.skip(i)),
    decreases i,
{
    if i == 0 {
        assert(ts.take(0) =~= Seq::<(Seq<char>, Tracker)>::empty());
        assert(ts.skip(0) =~= ts);
        assert(enc_topics(ts.take(0)) + enc_topics(ts) =~= enc_topics(ts));
    } else {
        let u = ts.drop_first();
        lemma_enc_topics_split(u, i - 1);
        assert(ts.take(i)[0] == ts[0]);
        assert(ts.take(i).drop_first() =~= u.take(i - 1));
        assert(ts.skip(i) =~= u.skip(i - 1));
        assert(enc_topics(ts.take(i)) == enc_topic(ts[0]) + enc_topics(u.take(i - 1)));
        assert(enc_topic(ts[0]) + (enc_topics(u.take(i - 1)) + enc_topics(u.skip(i - 1))) =~= (
        enc_topic(ts[0]) + enc_topics(u.take(i - 1))) + enc_topics(u.skip(i - 1)));
    }
}

/// The channels encoding splits at any point.
pub proof fn lemma_enc_chans_split(v: StoreV, i: int)
    requires
        0 <= i <= v.len(),
    ensures
        enc_chans(v) == enc_chans(v.take(i)) + enc_chans(v.skip(i)),
    decreases i,
{
    if i == 0 {
        assert(v.take(0) =~= Seq::<(Seq<char>, Seq<(Seq<char>, Tracker)>)>::empty());
        assert(v.skip(0) =~= v);
        assert(enc_chans(v.take(0)) + enc_chans(v) =~= enc_chans(v));
    } else {
        let u = v.drop_first();
        lemma_enc_chans_split(u, i - 1);
        assert(v.take(i)[0] == v[0]);
        assert(v.take(i).drop_first() =~= u.take(i - 1));
        assert(v.skip(i) =~= u.skip(i - 1));
        assert(enc_chans(v.take(i)) == enc_chan(v[0]) + enc_chans(u.take(i - 1)));
        assert(enc_chan(v[0]) + (enc_chans(u.take(i - 1)) + enc_chans(u.skip(i - 1))) =~= (
        enc_chan(v[0]) + enc_chans(u.take(i - 1))) + enc_chans(u.skip(i - 1)));
    }
}

/// Appending one topic extends the encoding on the right.
proof fn lemma_enc_topics_snoc(ts: Seq<(Seq<char>, Tracker)>, e: (Seq<char>, Tracker))
    ensures
        enc_topics(ts.push(e)) == enc_topics(ts) + enc_topic(e),
{
    lemma_enc_topics_split(ts.push(e), ts.len() as int);
    assert(ts.push(e).take(ts.len() as int) =~= ts);
    assert(ts.push(e).skip(ts.len() as int) =~= seq![e]);
    assert(seq![e][0] == e);
    assert(seq![e].drop_first() =~= Seq::<(Seq<char>, Tracker)>::empty());
    assert(enc_topics(seq![e]) == enc_topic(e) + enc_topics(seq![e].drop_first()));
    assert(enc_topics(seq![e]) =~= enc_topic(e));
}

/// Appending one channel extends the encoding on the right.
proof fn lemma_enc_chans_snoc(v: StoreV, c: (Seq<char>, Seq<(Seq<char>, Tracker)>))
    ensures
        enc_chans(v.push(c)) == enc_chans(v) + enc_chan(c),
{
    lemma_enc_chans_split(v.push(c), v.len() as int);
    assert(v.push(c).take(v.len() as int) =~= v);
    assert(v.push(c).skip(v.len() as int) =~= seq![c]);
    assert(seq![c][0] == c);
    assert(seq![c].drop_first() =~= Seq::<(Seq<char>, Seq<(Seq<char>, Tracker)>)>::empty());
    assert(enc_chans(seq![c]) == enc_chan(c) + enc_chans(seq![c].drop_first()));
    assert(enc_chans(seq![c]) =~= enc_chan(c));
}

/// Every topic takes at least one character to encode.
pub proof fn lemma_enc_topics_len_ge(ts: Seq<(Seq<char>, Tracker)>)
    ensures
        enc_topics(ts).len() >= ts.len(),
    decreases ts.len(),
{
    if ts.len() > 0 {
        lemma_enc_topics_len_ge(ts.drop_first());
        lemma_dec_of_canon(ts[0].0.len());
    }
}

/// Every channel takes at least one character to encode.
pub proof fn lemma_enc_chans_len_ge(v: StoreV)
    ensures
        enc_chans(v).len() >= v.len(),
    decreases v.len(),
{
    if v.len() > 0 {
        lemma_enc_chans_len_ge(v.drop_first());
        lemma_dec_of_canon(v[0].0.len());
    }
}

/// Append the number as a line.
fn push_nat_line(out: &mut String, n: u64)
    ensures
        final(out)@ == old(out)@ + enc_nat(n as nat),
{
    push_dec(out, n);
    proof {
        reveal_strlit("\n");
    }
    out.append("\n");
    proof {
        assert("\n"@ =~= seq!['\n']);
        assert(old(out)@ + dec_of(n as nat) + "\n"@ =~= old(out)@ + enc_nat(n as nat));
    }
}

/// Append the string, length-prefixed.
fn push_str_enc(out: &mut String, s: &str)
    ensures
        final(out)@ == old(out)@ + enc_str(s@),
{
    let n = s.unicode_len();
    push_nat_line(out, n as u64);
    out.append(s);
    proof {
        reveal_strlit("\n");
    }
    out.append("\n");
    proof {
        assert("\n"@ =~= seq!['\n']);
        assert(old(out)@ + enc_nat(s@.len()) + s@ + "\n"@ =~= old(out)@ + enc_str(s@));
    }
}

/// Append one tracker.
fn push_tracker(out: &mut String, t: &Tracker)
    requires
        t.wf(),
    ensures
        final(out)@ == old(out)@ + enc_tracker(*t),
{
    let iso = ts_to_iso(t.last_mention);
    push_str_enc(out, iso.as_str());
    match t.record {
        None => {
            proof {
                reveal_strlit("-\n");
            }
            out.append("-\n");
            proof {
                assert("-\n"@ =~= seq!['-', '\n']);
                assert(old(out)@ + enc_str(iso_of(t.last_mention)) + "-\n"@ =~= old(out)@
                    + enc_tracker(*t));
            }
        },
        Some(d) => {
            push_nat_line(out, d);
            proof {
                assert(old(out)@ + enc_str(iso_of(t.last_mention)) + enc_nat(d as nat) =~= old(
                    out,
                )@ + enc_tracker(*t));
            }
        },
    }
}

/// Append the topics from position `i` on.
fn push_topics_from(out: &mut String, topics: &Vec<TopicEntry>, i: usize)
    requires
        i <= topics@.len(),
        topics_wf(topics_view(topics@)),
    ensures
        final(out)@ == old(out)@ + enc_topics(topics_view(topics@).skip(i as int)),
    decreases topics@.len() - i,
{
    let ghost ts = topics_view(topics@);
    if i < topics.len() {
        assert(ts[i as int].1.wf());
        push_str_enc(out, topics[i].key.as_str());
        let t = topics[i].tracker;
        push_tracker(out, &t);
        push_topics_from(out, topics, i + 1);
        proof {
            assert(ts.skip(i as int)[0] == ts[i as int]);
            assert(ts.skip(i as int).drop_first() =~= ts.skip(i as int + 1));
            assert(old(out)@ + enc_str(ts[i as int].0) + enc_tracker(ts[i as int].1) + enc_topics(
                ts.skip(i as int + 1),
            ) =~= old(out)@ + enc_topics(ts.skip(i as int)));
        }
    } else {
        proof {
            assert(ts.skip(i as int) =~= Seq::<(Seq<char>, Tracker)>::empty());
            assert(old(out)@ + enc_topics(ts.skip(i as int)) =~= old(out)@);
        }
    }
}

/// Append the channels from position `i` on.
fn push_chans_from(out: &mut String, chans: &Vec<ChannelEntry>, i: usize)
    requires
        i <= chans@.len(),
        store_wf_v(store_view(chans@)),
    ensures
        final(out)@ == old(out)@ + enc_chans(store_view(chans@).skip(i as int)),
    decreases chans@.len() - i,
{
    let ghost v = store_view(chans@);
    if i < chans.len() {
        assert(topics_wf(v[i as int].1));
        push_str_enc(out, chans[i].name.as_str());
        let tn = chans[i].topics.len();
        push_nat_line(out, tn as u64);
        push_topics_from(out, &chans[i].topics, 0);
        proof {
            assert(topics_view(chans@[i as int].topics@).skip(0) =~= v[i as int].1);
        }
        push_chans_from(out, chans, i + 1);
        proof {
            assert(v.skip(i as int)[0] == v[i as int]);
            assert(v.skip(i as int).drop_first() =~= v.skip(i as int + 1));
            assert(old(out)@ + enc_str(v[i as int].0) + enc_nat(v[i as int].1.len()) + enc_topics(
                v[i as int].1,
            ) + enc_chans(v.skip(i as int + 1)) =~= old(out)@ + enc_chans(v.skip(i as int)));
        }
    } else {
        proof {
            assert(v.skip(i as int) =~= Seq::<(Seq<char>, Seq<(Seq<char>, Tracker)>)>::empty());
            assert(old(out)@ + enc_chans(v.skip(i as int)) =~= old(out)@);
        }
    }
}

/// Render the whole store as a snapshot, per [`spec_encode`].
pub fn encode_store(store: &Store) -> (s: String)
    requires
        store.wf(),
    ensures
        s@ == spec_encode(store@),
{
    let mut out = String::new();
    let n = store.channels.len();
    push_nat_line(&mut out, n as u64);
    push_chans_from(&mut out, &store.channels, 0);
    proof {
        assert(store_view(store.channels@).skip(0) =~= store@);
        assert(Seq::<char>::empty() + enc_nat(store@.len()) + enc_chans(store@) =~= spec_encode(
            store@,
        ));
    }
    out
}


/// The position of `pos + dec_of(m).len()` inside a number line: when the
/// rendering of `m` sits at `pos`, the first newline at or after `pos` is
/// right behind its digits.
proof fn lemma_nat_line_pos(s: Seq<char>, pos: int, j: int, m: u64)
    requires
        is_prefix_at(s, pos, enc_nat(m as nat)),
        pos <= j <= s.len(),
        forall|k: int| pos <= k < j ==> s[k] != '\n',
        j == s.len() || s[j] == '\n',
    ensures
        j == pos + dec_of(m as nat).len(),
        s.subrange(pos, j) == dec_of(m as nat),
        j < s.len(),
{
    lemma_dec_of_canon(m as nat);
    let d = dec_of(m as nat);
    let e = enc_nat(m as nat);
    let l = d.len() as int;
    assert(e.len() == l + 1);
    assert(e[l] == '\n');
    assert(s.subrange(pos, pos + e.len())[l] == s[pos + l]);
    assert(s[pos + l] == '\n');
    assert(pos + l < s.len());
    assert forall|k: int| pos <= k < pos + l implies s[k] != '\n' by {
        assert(s.subrange(pos, pos + e.len())[k - pos] == s[k]);
        assert(e[k - pos] == d[k - pos]);
        assert(d[k - pos] != '\n');
    }
    if j < pos + l {
        assert(s[j] != '\n');
        assert(false);
    }
    if j > pos + l {
        assert(s[pos + l] != '\n');
        assert(false);
    }
    assert forall|k: int| 0 <= k < l implies s.subrange(pos, j)[k] == d[k] by {
        assert(s.subrange(pos, pos + e.len())[k] == s[pos + k]);
        assert(e[k] == d[k]);
    }
    assert(s.subrange(pos, j) =~= d);
}

/// Read one number line at `pos`: wherever a rendered number sits, that
/// number comes back, with the position just past its line.
fn parse_nat(s: &str, n: usize, pos: usize) -> (r: Option<(u64, usize)>)
    requires
        n == s@.len(),
        pos <= n,
    ensures
        r matches Some(p) ==> pos < p.1 <= n && s@.subrange(pos as int, p.1 as int) == enc_nat(
            p.0 as nat,
        ),
        forall|m: u64|
            is_prefix_at(s@, pos as int, enc_nat(m as nat)) ==> (r matches Some(p) && p.0 == m
                && p.1 as int == pos + enc_nat(m as nat).len()),
{
    let mut j: usize = pos;
    while j < n && s.get_char(j) != '\n'
        invariant
            pos <= j <= n,
            n == s@.len(),
            forall|k: int| pos <= k < j ==> s@[k] != '\n',
        decreases n - j,
    {
        j = j + 1;
    }
    if j == n {
        proof {
            assert forall|m: u64| !is_prefix_at(s@, pos as int, enc_nat(m as nat)) by {
                if is_prefix_at(s@, pos as int, enc_nat(m as nat)) {
                    lemma_nat_line_pos(s@, pos as int, j as int, m);
                }
            }
        }
        return None;
    }
    assert(s@[j as int] == '\n');
    if j == pos {
        proof {
            assert forall|m: u64| !is_prefix_at(s@, pos as int, enc_nat(m as nat)) by {
                if is_prefix_at(s@, pos as int, enc_nat(m as nat)) {
                    lemma_nat_line_pos(s@, pos as int, j as int, m);
                    lemma_dec_of_canon(m as nat);
                }
            }
        }
        return None;
    }
    if j > pos + 1 && s.get_char(pos) == '0' {
        proof {
            assert forall|m: u64| !is_prefix_at(s@, pos as int, enc_nat(m as nat)) by {
                if is_prefix_at(s@, pos as int, enc_nat(m as nat)) {
                    lemma_nat_line_pos(s@, pos as int, j as int, m);
                    lemma_dec_of_canon(m as nat);
                    assert(s@.subrange(pos as int, j as int)[0] == s@[pos as int]);
                }
            }
        }
        return None;
    }
    let mut acc: u64 = 0;
    let mut i: usize = pos;
    while i < j
        invariant
            pos <= i <= j < n,
            n == s@.len(),
            s@[j as int] == '\n',
            forall|k: int| pos <= k < j ==> s@[k] != '\n',
            forall|k: int| pos <= k < i ==> is_digit(s@[k]),
            acc as nat == val_of(s@.subrange(pos as int, i as int)),
        decreases j - i,
    {
        let c = s.get_char(i);
        let u = c as u32;
        if u < 48 || u > 57 {
            proof {
                assert forall|m: u64| !is_prefix_at(s@, pos as int, enc_nat(m as nat)) by {
                    if is_prefix_at(s@, pos as int, enc_nat(m as nat)) {
                        lemma_nat_line_pos(s@, pos as int, j as int, m);
                        lemma_dec_of_canon(m as nat);
                        let d = dec_of(m as nat);
                        assert(s@.subrange(pos as int, j as int)[i - pos] == s@[i as int]);
                        assert(is_digit(d[i - pos]));
                    }
                }
            }
            return None;
        }
        let dv = (u - 48) as u64;
        assert(dv == digit_val(s@[i as int]));
        assert(dv < 10);
        if acc > (u64::MAX - dv) / 10 {
            proof {
                let q = ((u64::MAX - dv) / 10) as int;
                vstd::arithmetic::div_mod::lemma_fundamental_div_mod(u64::MAX - dv, 10);
                assert forall|m: u64| !is_prefix_at(s@, pos as int, enc_nat(m as nat)) by {
                    if is_prefix_at(s@, pos as int, enc_nat(m as nat)) {
                        lemma_nat_line_pos(s@, pos as int, j as int, m);
                        lemma_dec_of_canon(m as nat);
                        let d = dec_of(m as nat);
                        assert(s@.subrange(pos as int, i as int) =~= d.take(i - pos));
                        let t1 = d.take(i - pos + 1);
                        assert(t1.drop_last() =~= d.take(i - pos));
                        assert(t1.last() == d[i - pos]);
                        assert(d[i - pos] == s@.subrange(pos as int, j as int)[i - pos]);
                        assert(d[i - pos] == s@[i as int]);
                        assert(val_of(t1) == (acc as nat) * 10 + dv);
                        lemma_val_of_take_le(d, i - pos + 1);
                        assert((acc as nat) * 10 + dv <= m);
                        assert((q + 1) * 10 <= acc as int * 10) by (nonlinear_arith)
                            requires
                                q + 1 <= acc as int,
                        ;
                        assert(false);
                    }
                }
            }
            return None;
        }
        proof {
            let q = ((u64::MAX - dv) / 10) as int;
            vstd::arithmetic::div_mod::lemma_fundamental_div_mod(u64::MAX - dv, 10);
            assert(acc as int * 10 <= q * 10) by (nonlinear_arith)
                requires
                    acc as int <= q,
            ;
            assert(acc as int * 10 + dv <= u64::MAX);
        }
        let ghost pre = s@.subrange(pos as int, i as int);
        acc = acc * 10 + dv;
        i = i + 1;
        proof {
            let cur = s@.subrange(pos as int, i as int);
            assert(cur.drop_last() =~= pre);
            assert(cur.last() == s@[i - 1]);
            assert(val_of(cur) == val_of(pre) * 10 + digit_val(s@[i - 1]));
        }
    }
    proof {
        assert forall|m: u64|
            is_prefix_at(s@, pos as int, enc_nat(m as nat)) implies acc == m && j + 1 == pos
            + enc_nat(m as nat).len() by {
            lemma_nat_line_pos(s@, pos as int, j as int, m);
            lemma_dec_of_canon(m as nat);
            assert(s@.subrange(pos as int, j as int) == dec_of(m as nat));
            assert(acc as nat == val_of(dec_of(m as nat)));
        }
        let line = s@.subrange(pos as int, j as int);
        assert forall|k: int| 0 <= k < line.len() implies is_digit(#[trigger] line[k]) by {
            assert(line[k] == s@[pos + k]);
        }
        assert(line[0] == s@[pos as int]);
        assert(is_canon_digits(line));
        lemma_dec_of_canon(acc as nat);
        lemma_canon_unique(line, dec_of(acc as nat));
        assert(s@.subrange(pos as int, j as int + 1) =~= line + seq!['\n']);
    }
    Some((acc, j + 1))
}

/// Read one length-prefixed string at `pos`: wherever a rendered string
/// sits, its characters come back.
fn parse_str(s: &str, n: usize, pos: usize) -> (r: Option<(String, usize)>)
    requires
        n == s@.len(),
        pos <= n,
    ensures
        r matches Some(p) ==> pos < p.1 <= n && s@.subrange(pos as int, p.1 as int) == enc_str(
            p.0@,
        ),
        forall|q: Seq<char>|
            is_prefix_at(s@, pos as int, enc_str(q)) ==> (r matches Some(p) && p.0@ == q
                && p.1 as int == pos + enc_str(q).len()),
{
    proof {
        assert forall|q: Seq<char>|
            is_prefix_at(s@, pos as int, enc_str(q)) implies is_prefix_at(
            s@,
            pos as int,
            enc_nat(q.len()),
        ) && q.len() <= u64::MAX && is_prefix_at(
            s@,
            pos + enc_nat(q.len()).len(),
            q + seq!['\n'],
        ) by {
            assert(enc_str(q) =~= enc_nat(q.len()) + (q + seq!['\n']));
            lemma_prefix_split(s@, pos as int, enc_nat(q.len()), q + seq!['\n']);
            assert(q.len() <= s@.len());
            assert(s@.len() <= usize::MAX);
        }
    }
    match parse_nat(s, n, pos) {
        None => None,
        Some((m, p2)) => {
            if (n - p2) as u64 <= m {
                proof {
                    assert forall|q: Seq<char>| !is_prefix_at(s@, pos as int, enc_str(q)) by {
                        if is_prefix_at(s@, pos as int, enc_str(q)) {
                            assert(m == q.len() as u64);
                            assert(p2 == pos + enc_nat(q.len()).len());
                            assert(p2 + q.len() + 1 <= n);
                        }
                    }
                }
                None
            } else {
                let mlen = m as usize;
                let content = s.substring_char(p2, p2 + mlen);
                if s.get_char(p2 + mlen) == '\n' {
                    let out = content.to_owned();
                    proof {
                        assert(out@ == s@.subrange(p2 as int, p2 + mlen));
                        assert(out@.len() == m as nat);
                        assert(s@.subrange(pos as int, p2 as int) == enc_nat(m as nat));
                        assert(s@.subrange(pos as int, p2 + mlen + 1) =~= s@.subrange(
                            pos as int,
                            p2 as int,
                        ) + out@ + seq!['\n']);
                        assert(enc_str(out@) == enc_nat(out@.len()) + out@ + seq!['\n']);
                        assert forall|q: Seq<char>|
                            is_prefix_at(s@, pos as int, enc_str(q)) implies out@ == q && p2 + mlen
                            + 1 == pos + enc_str(q).len() by {
                            assert(m == q.len() as u64);
                            assert(p2 == pos + enc_nat(q.len()).len());
                            let tail = q + seq!['\n'];
                            assert forall|k: int| 0 <= k < q.len() implies s@[p2 + k] == q[k] by {
                                assert(s@.subrange(p2 as int, p2 + tail.len())[k] == s@[p2 + k]);
                                assert(tail[k] == q[k]);
                            }
                            assert(out@ =~= q);
                        }
                    }
                    Some((out, p2 + mlen + 1))
                } else {
                    proof {
                        assert forall|q: Seq<char>| !is_prefix_at(s@, pos as int, enc_str(q)) by {
                            if is_prefix_at(s@, pos as int, enc_str(q)) {
                                assert(m == q.len() as u64);
                                assert(p2 == pos + enc_nat(q.len()).len());
                                let tail = q + seq!['\n'];
                                assert(s@.subrange(p2 as int, p2 + tail.len())[q.len() as int]
                                    == s@[p2 + q.len()]);
                                assert(tail[q.len() as int] == '\n');
                            }
                        }
                    }
                    None
                }
            }
        },
    }
}

/// Read one record line at `pos`.
fn parse_record(s: &str, n: usize, pos: usize) -> (r: Option<(Option<u64>, usize)>)
    requires
        n == s@.len(),
        pos <= n,
    ensures
        r matches Some(p) ==> pos < p.1 <= n && s@.subrange(pos as int, p.1 as int) == enc_rec(
            p.0,
        ),
        forall|rec: Option<u64>|
            is_prefix_at(s@, pos as int, enc_rec(rec)) ==> (r matches Some(p) && p.0 == rec
                && p.1 as int == pos + enc_rec(rec).len()),
{
    proof {
        assert forall|d: u64|
            is_prefix_at(s@, pos as int, enc_rec(Some(d))) implies pos < s@.len() && s@[pos as int]
            != '-' by {
            lemma_dec_of_canon(d as nat);
            let e = enc_nat(d as nat);
            assert(s@.subrange(pos as int, pos + e.len())[0] == s@[pos as int]);
            assert(e[0] == dec_of(d as nat)[0]);
            assert(is_digit(s@[pos as int]));
        }
        if is_prefix_at(s@, pos as int, enc_rec(None)) {
            let e = enc_rec(None);
            assert(s@.subrange(pos as int, pos + 2)[0] == s@[pos as int]);
            assert(s@.subrange(pos as int, pos + 2)[1] == s@[pos + 1]);
            assert(e[0] == '-' && e[1] == '\n');
        }
    }
    if pos < n && s.get_char(pos) == '-' {
        if pos + 1 < n && s.get_char(pos + 1) == '\n' {
            proof {
                assert(s@.subrange(pos as int, pos + 2) =~= seq!['-', '\n']);
            }
            Some((None, pos + 2))
        } else {
            None
        }
    } else {
        match parse_nat(s, n, pos) {
            None => None,
            Some((m, p2)) => Some((Some(m), p2)),
        }
    }
}

/// Read one tracker at `pos`: its time line, then its record line.
fn parse_tracker(s: &str, n: usize, pos: usize) -> (r: Option<(Tracker, usize)>)
    requires
        n == s@.len(),
        pos <= n,
    ensures
        r matches Some(p) ==> pos < p.1 <= n && p.0.wf() && s@.subrange(pos as int, p.1 as int)
            == enc_tracker(p.0),
        forall|t: Tracker|
            t.wf() && is_prefix_at(s@, pos as int, enc_tracker(t)) ==> (r matches Some(p) && p.0
                == t && p.1 as int == pos + enc_tracker(t).len()),
{
    proof {
        assert forall|t: Tracker|
            is_prefix_at(s@, pos as int, enc_tracker(t)) implies is_prefix_at(
            s@,
            pos as int,
            enc_str(iso_of(t.last_mention)),
        ) && is_prefix_at(
            s@,
            pos + enc_str(iso_of(t.last_mention)).len(),
            enc_rec(t.record),
        ) by {
            lemma_prefix_split(
                s@,
                pos as int,
                enc_str(iso_of(t.last_mention)),
                enc_rec(t.record),
            );
        }
    }
    match parse_str(s, n, pos) {
        None => None,
        Some((iso, p1)) => {
            match iso_to_ts(iso.as_str()) {
                None => None,
                Some(ts) => {
                    if ts >= TS_LIMIT {
                        proof {
                            assert forall|t: Tracker|
                                !(t.wf() && is_prefix_at(s@, pos as int, enc_tracker(t))) by {
                                if t.wf() && is_prefix_at(s@, pos as int, enc_tracker(t)) {
                                    assert(iso@ == iso_of(t.last_mention));
                                }
                            }
                        }
                        None
                    } else {
                        let canon = ts_to_iso(ts);
                        if !str_eq(canon.as_str(), iso.as_str()) {
                            proof {
                                assert forall|t: Tracker|
                                    !(t.wf() && is_prefix_at(s@, pos as int, enc_tracker(t))) by {
                                    if t.wf() && is_prefix_at(s@, pos as int, enc_tracker(t)) {
                                        assert(iso@ == iso_of(t.last_mention));
                                        assert(ts == t.last_mention);
                                        assert(canon@ == iso_of(ts));
                                    }
                                }
                            }
                            return None;
                        }
                        match parse_record(s, n, p1) {
                            None => None,
                            Some((rec, p2)) => {
                                let out = Tracker { last_mention: ts, record: rec };
                                proof {
                                    assert(iso@ == iso_of(ts));
                                    assert(s@.subrange(pos as int, p1 as int) == enc_str(
                                        iso_of(out.last_mention),
                                    ));
                                    assert(s@.subrange(p1 as int, p2 as int) == enc_rec(
                                        out.record,
                                    ));
                                    assert(s@.subrange(pos as int, p2 as int) =~= s@.subrange(
                                        pos as int,
                                        p1 as int,
                                    ) + s@.subrange(p1 as int, p2 as int));
                                    assert forall|t: Tracker|
                                        t.wf() && is_prefix_at(
                                            s@,
                                            pos as int,
                                            enc_tracker(t),
                                        ) implies out == t && p2 as int == pos + enc_tracker(
                                        t,
                                    ).len() by {
                                        assert(iso@ == iso_of(t.last_mention));
                                        assert(ts == t.last_mention);
                                        assert(rec == t.record);
                                    }
                                }
                                Some((out, p2))
                            },
                        }
                    }
                },
            }
        },
    }
}

/// Read one channel at `pos`: its name, its topic count, its topics.
fn parse_channel(s: &str, n: usize, pos: usize) -> (r: Option<(ChannelEntry, usize)>)
    requires
        n == s@.len(),
        pos <= n,
    ensures
        r matches Some(p) ==> pos < p.1 <= n && topics_wf(topics_view(p.0.topics@))
            && s@.subrange(pos as int, p.1 as int) == enc_chan(
            (p.0.name@, topics_view(p.0.topics@)),
        ),
        forall|c: (Seq<char>, Seq<(Seq<char>, Tracker)>)|
            topics_wf(c.1) && is_prefix_at(s@, pos as int, enc_chan(c)) ==> (r matches Some(p)
                && p.0.name@ == c.0 && topics_view(p.0.topics@) == c.1 && p.1 as int == pos
                + enc_chan(c).len()),
{
    proof {
        assert forall|c: (Seq<char>, Seq<(Seq<char>, Tracker)>)|
            is_prefix_at(s@, pos as int, enc_chan(c)) implies is_prefix_at(
            s@,
            pos as int,
            enc_str(c.0),
        ) && is_prefix_at(s@, pos + enc_str(c.0).len(), enc_nat(c.1.len())) && is_prefix_at(
            s@,
            pos + enc_str(c.0).len() + enc_nat(c.1.len()).len(),
            enc_topics(c.1),
        ) && c.1.len() <= u64::MAX by {
            assert(enc_chan(c) =~= enc_str(c.0) + (enc_nat(c.1.len()) + enc_topics(c.1)));
            lemma_prefix_split(s@, pos as int, enc_str(c.0), enc_nat(c.1.len()) + enc_topics(c.1));
            lemma_prefix_split(s@, pos + enc_str(c.0).len(), enc_nat(c.1.len()), enc_topics(c.1));
            lemma_enc_topics_len_ge(c.1);
            assert(c.1.len() <= s@.len());
        }
    }
    let (name, p1) = match parse_str(s, n, pos) {
        None => {
            return None;
        },
        Some(x) => x,
    };
    let (cnt, p2) = match parse_nat(s, n, p1) {
        None => {
            proof {
                assert forall|c: (Seq<char>, Seq<(Seq<char>, Tracker)>)|
                    !(topics_wf(c.1) && is_prefix_at(s@, pos as int, enc_chan(c))) by {
                    if is_prefix_at(s@, pos as int, enc_chan(c)) {
                        assert(enc_nat((c.1.len() as u64) as nat) == enc_nat(c.1.len()));
                        assert(p1 == pos + enc_str(c.0).len());
                    }
                }
            }
            return None;
        },
        Some(x) => x,
    };
    proof {
        assert forall|c: (Seq<char>, Seq<(Seq<char>, Tracker)>)|
            topics_wf(c.1) && is_prefix_at(s@, pos as int, enc_chan(c)) implies name@ == c.0
            && cnt as nat == c.1.len() && p2 as int == pos + enc_str(c.0).len() + enc_nat(
            c.1.len(),
        ).len() by {
            assert(enc_nat((c.1.len() as u64) as nat) == enc_nat(c.1.len()));
            assert(p1 == pos + enc_str(c.0).len());
        }
    }
    let mut topics: Vec<TopicEntry> = Vec::new();
    let mut cur: usize = p2;
    let mut i: u64 = 0;
    proof {
        assert(topics_view(topics@) =~= Seq::<(Seq<char>, Tracker)>::empty());
        assert(s@.subrange(pos as int, p2 as int) =~= s@.subrange(pos as int, p1 as int)
            + s@.subrange(p1 as int, p2 as int));
        assert(enc_topics(topics_view(topics@)) =~= Seq::<char>::empty());
        assert(s@.subrange(pos as int, cur as int) =~= enc_str(name@) + enc_nat(cnt as nat)
            + enc_topics(topics_view(topics@)));
        assert forall|c: (Seq<char>, Seq<(Seq<char>, Tracker)>)|
            topics_wf(c.1) && is_prefix_at(s@, pos as int, enc_chan(c)) implies topics_view(
            topics@,
        ) == c.1.take(0) && enc_topics(c.1.take(0)).len() == 0 by {
            assert(c.1.take(0) =~= Seq::<(Seq<char>, Tracker)>::empty());
        }
    }
    while i < cnt
        invariant
            n == s@.len(),
            pos < cur <= n,
            i <= cnt,
            topics@.len() == i as nat,
            topics_wf(topics_view(topics@)),
            s@.subrange(pos as int, cur as int) == enc_str(name@) + enc_nat(cnt as nat)
                + enc_topics(topics_view(topics@)),
            forall|c: (Seq<char>, Seq<(Seq<char>, Tracker)>)|
                topics_wf(c.1) && is_prefix_at(s@, pos as int, enc_chan(c)) ==> name@ == c.0
                    && cnt as nat == c.1.len() && i as nat <= c.1.len() && topics_view(topics@)
                    == c.1.take(i as int) && cur as int == pos + enc_str(c.0).len() + enc_nat(
                    c.1.len(),
                ).len() + enc_topics(c.1.take(i as int)).len(),
        decreases cnt - i,
    {
        let ghost i0 = i as int;
        let ghost cur0 = cur as int;
        proof {
            assert forall|c: (Seq<char>, Seq<(Seq<char>, Tracker)>)|
                topics_wf(c.1) && is_prefix_at(s@, pos as int, enc_chan(c)) implies is_prefix_at(
                s@,
                cur0,
                enc_str(c.1[i0].0),
            ) && is_prefix_at(
                s@,
                cur0 + enc_str(c.1[i0].0).len(),
                enc_tracker(c.1[i0].1),
            ) && c.1[i0].1.wf() by {
                assert(i0 < c.1.len());
                assert(enc_chan(c) =~= enc_str(c.0) + (enc_nat(c.1.len()) + enc_topics(c.1)));
                lemma_prefix_split(
                    s@,
                    pos as int,
                    enc_str(c.0),
                    enc_nat(c.1.len()) + enc_topics(c.1),
                );
                lemma_prefix_split(
                    s@,
                    pos + enc_str(c.0).len(),
                    enc_nat(c.1.len()),
                    enc_topics(c.1),
                );
                lemma_enc_topics_split(c.1, i0);
                lemma_prefix_split(
                    s@,
                    pos + enc_str(c.0).len() + enc_nat(c.1.len()).len(),
                    enc_topics(c.1.take(i0)),
                    enc_topics(c.1.skip(i0)),
                );
                assert(c.1.skip(i0)[0] == c.1[i0]);
                assert(c.1.skip(i0).drop_first() =~= c.1.skip(i0 + 1));
                assert(enc_topics(c.1.skip(i0)) == enc_topic(c.1[i0]) + enc_topics(
                    c.1.skip(i0 + 1),
                ));
                assert(enc_topic(c.1[i0]) =~= enc_str(c.1[i0].0) + enc_tracker(c.1[i0].1));
                lemma_prefix_split(s@, cur0, enc_str(c.1[i0].0), enc_tracker(c.1[i0].1));
                lemma_prefix_split(
                    s@,
                    cur0,
                    enc_topic(c.1[i0]),
                    enc_topics(c.1.skip(i0 + 1)),
                );
            }
        }
        let (key, q1) = match parse_str(s, n, cur) {
            None => {
                return None;
            },
            Some(x) => x,
        };
        let mut dup = false;
        let mut k: usize = 0;
        while k < topics.len()
            invariant
                k <= topics@.len(),
                !dup ==> forall|a: int| 0 <= a < k ==> topics_view(topics@)[a].0 != key@,
                dup ==> exists|a: int|
                    0 <= a < topics@.len() && topics_view(topics@)[a].0 == key@,
            decreases topics@.len() - k,
        {
            if str_eq(topics[k].key.as_str(), key.as_str()) {
                assert(topics_view(topics@)[k as int].0 == key@);
                dup = true;
            }
            k = k + 1;
        }
        if dup {
            proof {
                assert forall|c: (Seq<char>, Seq<(Seq<char>, Tracker)>)|
                    !(topics_wf(c.1) && is_prefix_at(s@, pos as int, enc_chan(c))) by {
                    if topics_wf(c.1) && is_prefix_at(s@, pos as int, enc_chan(c)) {
                        assert(key@ == c.1[i0].0);
                        let a = choose|a: int|
                            0 <= a < topics@.len() && topics_view(topics@)[a].0 == key@;
                        assert(c.1.take(i0)[a] == c.1[a]);
                        assert(c.1[a].0 == c.1[i0].0);
                    }
                }
            }
            return None;
        }
        let (tr, q2) = match parse_tracker(s, n, q1) {
            None => {
                proof {
                    assert forall|c: (Seq<char>, Seq<(Seq<char>, Tracker)>)|
                        !(topics_wf(c.1) && is_prefix_at(s@, pos as int, enc_chan(c))) by {
                        if topics_wf(c.1) && is_prefix_at(s@, pos as int, enc_chan(c)) {
                            assert(key@ == c.1[i0].0);
                            assert(q1 as int == cur0 + enc_str(c.1[i0].0).len());
                        }
                    }
                }
                return None;
            },
            Some(x) => x,
        };
        let ghost old_topics = topics@;
        let ghost keyv = key@;
        topics.push(TopicEntry { key, tracker: tr });
        cur = q2;
        i = i + 1;
        proof {
            assert(topics_view(topics@) =~= topics_view(old_topics).push(
                (topics@[i0].key@, topics@[i0].tracker),
            ));
            assert(topics@[i0].key@ == keyv && topics@[i0].tracker == tr);
            lemma_enc_topics_snoc(topics_view(old_topics), (keyv, tr));
            assert(s@.subrange(pos as int, q2 as int) =~= s@.subrange(pos as int, cur0)
                + s@.subrange(cur0, q1 as int) + s@.subrange(q1 as int, q2 as int));
            assert(s@.subrange(cur0, q1 as int) == enc_str(keyv));
            assert(s@.subrange(q1 as int, q2 as int) == enc_tracker(tr));
            assert(enc_topic((keyv, tr)) == enc_str(keyv) + enc_tracker(tr));
            assert(s@.subrange(pos as int, cur as int) =~= enc_str(name@) + enc_nat(cnt as nat)
                + enc_topics(topics_view(topics@)));
            assert forall|a: int, b: int|
                0 <= a < b < topics_view(topics@).len() implies topics_view(topics@)[a].0
                != topics_view(topics@)[b].0 by {
                if b < i0 {
                    assert(topics_view(topics@)[a] == topics_view(old_topics)[a]);
                    assert(topics_view(topics@)[b] == topics_view(old_topics)[b]);
                } else {
                    assert(topics_view(topics@)[a] == topics_view(old_topics)[a]);
                }
            }
            assert forall|a: int|
                0 <= a < topics_view(topics@).len() implies (#[trigger] topics_view(
                topics@,
            )[a]).1.wf() by {
                if a < i0 {
                    assert(topics_view(topics@)[a] == topics_view(old_topics)[a]);
                }
            }
            assert forall|c: (Seq<char>, Seq<(Seq<char>, Tracker)>)|
                topics_wf(c.1) && is_prefix_at(s@, pos as int, enc_chan(c)) implies topics_view(
                topics@,
            ) == c.1.take(i0 + 1) && cur as int == pos + enc_str(c.0).len() + enc_nat(
                c.1.len(),
            ).len() + enc_topics(c.1.take(i0 + 1)).len() by {
                assert(key@ == c.1[i0].0);
                assert(tr == c.1[i0].1);
                assert(q1 as int == cur0 + enc_str(c.1[i0].0).len());
                assert(q2 as int == q1 + enc_tracker(c.1[i0].1).len());
                assert(topics_view(old_topics) == c.1.take(i0));
                assert(topics_view(topics@) =~= c.1.take(i0 + 1));
                lemma_enc_topics_split(c.1.take(i0 + 1), i0);
                assert(c.1.take(i0 + 1).take(i0) =~= c.1.take(i0));
                assert(c.1.take(i0 + 1).skip(i0) =~= seq![c.1[i0]]);
                assert(enc_topics(seq![c.1[i0]]) == enc_topic(c.1[i0]) + enc_topics(
                    seq![c.1[i0]].drop_first(),
                ));
                assert(seq![c.1[i0]].drop_first() =~= Seq::<(Seq<char>, Tracker)>::empty());
                assert(enc_topics(seq![c.1[i0]]) =~= enc_topic(c.1[i0]));
                assert(enc_topic(c.1[i0]) =~= enc_str(c.1[i0].0) + enc_tracker(c.1[i0].1));
            }
        }
    }
    let out = ChannelEntry { name, topics };
    proof {
        assert(topics_view(out.topics@).len() == cnt as nat);
        assert(enc_chan((out.name@, topics_view(out.topics@))) == enc_str(out.name@) + enc_nat(
            topics_view(out.topics@).len(),
        ) + enc_topics(topics_view(out.topics@)));
        assert(s@.subrange(pos as int, cur as int) == enc_chan(
            (out.name@, topics_view(out.topics@)),
        ));
        assert forall|c: (Seq<char>, Seq<(Seq<char>, Tracker)>)|
            topics_wf(c.1) && is_prefix_at(s@, pos as int, enc_chan(c)) implies topics_view(
            out.topics@,
        ) == c.1 && cur as int == pos + enc_chan(c).len() by {
            assert(c.1.take(cnt as int) =~= c.1);
            assert(enc_chan(c) =~= enc_str(c.0) + enc_nat(c.1.len()) + enc_topics(c.1));
        }
    }
    Some((out, cur))
}

/// Read a whole snapshot.  Whatever [`spec_encode`] produced of a well
/// formed store decodes to that store; and whatever decoding accepts is a
/// well formed store whose encoding is exactly the input.
pub fn decode_store(s: &str) -> (r: Option<Store>)
    ensures
        r matches Some(st) ==> st.wf() && s@ == spec_encode(st@),
        forall|v: StoreV|
            store_wf_v(v) && s@ == spec_encode(v) ==> (r matches Some(st) && st@ == v),
{
    let n = s.unicode_len();
    proof {
        assert forall|v: StoreV|
            store_wf_v(v) && s@ == spec_encode(v) implies is_prefix_at(
            s@,
            0,
            enc_nat(v.len()),
        ) && is_prefix_at(s@, enc_nat(v.len()).len() as int, enc_chans(v)) && v.len()
            <= u64::MAX by {
            assert(s@.subrange(0, spec_encode(v).len() as int) =~= spec_encode(v));
            assert(is_prefix_at(s@, 0, enc_nat(v.len()) + enc_chans(v)));
            lemma_prefix_split(s@, 0, enc_nat(v.len()), enc_chans(v));
            lemma_enc_chans_len_ge(v);
            assert(v.len() <= s@.len());
        }
    }
    let (cnt, p1) = match parse_nat(s, n, 0) {
        None => {
            proof {
                assert forall|v: StoreV| !(store_wf_v(v) && s@ == spec_encode(v)) by {
                    if store_wf_v(v) && s@ == spec_encode(v) {
                        assert(enc_nat((v.len() as u64) as nat) == enc_nat(v.len()));
                    }
                }
            }
            return None;
        },
        Some(x) => x,
    };
    let mut chans: Vec<ChannelEntry> = Vec::new();
    let mut cur: usize = p1;
    let mut i: u64 = 0;
    proof {
        assert(store_view(chans@) =~= Seq::<(Seq<char>, Seq<(Seq<char>, Tracker)>)>::empty());
        assert(enc_chans(store_view(chans@)) =~= Seq::<char>::empty());
        assert(s@.subrange(0, cur as int) =~= enc_nat(cnt as nat) + enc_chans(
            store_view(chans@),
        ));
        assert forall|v: StoreV|
            store_wf_v(v) && s@ == spec_encode(v) implies cnt as nat == v.len() && store_view(
            chans@,
        ) == v.take(0) && enc_chans(v.take(0)).len() == 0 by {
            assert(enc_nat((v.len() as u64) as nat) == enc_nat(v.len()));
            assert(v.take(0) =~= Seq::<(Seq<char>, Seq<(Seq<char>, Tracker)>)>::empty());
        }
    }
    while i < cnt
        invariant
            n == s@.len(),
            cur <= n,
            i <= cnt,
            chans@.len() == i as nat,
            store_wf_v(store_view(chans@)),
            s@.subrange(0, cur as int) == enc_nat(cnt as nat) + enc_chans(store_view(chans@)),
            forall|v: StoreV|
                store_wf_v(v) && s@ == spec_encode(v) ==> cnt as nat == v.len() && i as nat
                    <= v.len() && store_view(chans@) == v.take(i as int) && cur as int == enc_nat(
                    v.len(),
                ).len() + enc_chans(v.take(i as int)).len(),
        decreases cnt - i,
    {
        let ghost i0 = i as int;
        let ghost cur0 = cur as int;
        proof {
            assert forall|v: StoreV|
                store_wf_v(v) && s@ == spec_encode(v) implies is_prefix_at(
                s@,
                cur0,
                enc_chan(v[i0]),
            ) && topics_wf(v[i0].1) by {
                assert(i0 < v.len());
                assert(s@.subrange(0, spec_encode(v).len() as int) =~= spec_encode(v));
                assert(is_prefix_at(s@, 0, enc_nat(v.len()) + enc_chans(v)));
                lemma_prefix_split(s@, 0, enc_nat(v.len()), enc_chans(v));
                lemma_enc_chans_split(v, i0);
                lemma_prefix_split(
                    s@,
                    enc_nat(v.len()).len() as int,
                    enc_chans(v.take(i0)),
                    enc_chans(v.skip(i0)),
                );
                assert(v.skip(i0)[0] == v[i0]);
                assert(v.skip(i0).drop_first() =~= v.skip(i0 + 1));
                assert(enc_chans(v.skip(i0)) == enc_chan(v[i0]) + enc_chans(v.skip(i0 + 1)));
                lemma_prefix_split(s@, cur0, enc_chan(v[i0]), enc_chans(v.skip(i0 + 1)));
            }
        }
        let (ch, q1) = match parse_channel(s, n, cur) {
            None => {
                return None;
            },
            Some(x) => x,
        };
        let mut dup = false;
        let mut k: usize = 0;
        while k < chans.len()
            invariant
                k <= chans@.len(),
                !dup ==> forall|a: int| 0 <= a < k ==> store_view(chans@)[a].0 != ch.name@,
                dup ==> exists|a: int|
                    0 <= a < chans@.len() && store_view(chans@)[a].0 == ch.name@,
            decreases chans@.len() - k,
        {
            if str_eq(chans[k].name.as_str(), ch.name.as_str()) {
                assert(store_view(chans@)[k as int].0 == ch.name@);
                dup = true;
            }
            k = k + 1;
        }
        if dup {
            proof {
                assert forall|v: StoreV| !(store_wf_v(v) && s@ == spec_encode(v)) by {
                    if store_wf_v(v) && s@ == spec_encode(v) {
                        assert(ch.name@ == v[i0].0);
                        let a = choose|a: int|
                            0 <= a < chans@.len() && store_view(chans@)[a].0 == ch.name@;
                        assert(v.take(i0)[a] == v[a]);
                        assert(v[a].0 == v[i0].0);
                    }
                }
            }
            return None;
        }
        let ghost old_chans = chans@;
        let ghost namev = ch.name@;
        let ghost tsv = topics_view(ch.topics@);
        let ghost chunk = s@.subrange(cur0, q1 as int);
        chans.push(ch);
        cur = q1;
        i = i + 1;
        proof {
            assert(store_view(chans@) =~= store_view(old_chans).push(
                (chans@[i0].name@, topics_view(chans@[i0].topics@)),
            ));
            assert(chans@[i0].name@ == namev && topics_view(chans@[i0].topics@) == tsv);
            lemma_enc_chans_snoc(store_view(old_chans), (namev, tsv));
            assert(chunk == enc_chan((namev, tsv)));
            assert(s@.subrange(0, q1 as int) =~= s@.subrange(0, cur0) + chunk);
            assert(s@.subrange(0, cur as int) =~= enc_nat(cnt as nat) + enc_chans(
                store_view(chans@),
            ));
            assert forall|a: int, b: int|
                0 <= a < b < store_view(chans@).len() implies store_view(chans@)[a].0
                != store_view(chans@)[b].0 by {
                if b < i0 {
                    assert(store_view(chans@)[a] == store_view(old_chans)[a]);
                    assert(store_view(chans@)[b] == store_view(old_chans)[b]);
                } else {
                    assert(store_view(chans@)[a] == store_view(old_chans)[a]);
                }
            }
            assert forall|a: int|
                0 <= a < store_view(chans@).len() implies topics_wf(
                (#[trigger] store_view(chans@)[a]).1,
            ) by {
                if a < i0 {
                    assert(store_view(chans@)[a] == store_view(old_chans)[a]);
                }
            }
            assert forall|v: StoreV|
                store_wf_v(v) && s@ == spec_encode(v) implies store_view(chans@) == v.take(i0 + 1)
                && cur as int == enc_nat(v.len()).len() + enc_chans(v.take(i0 + 1)).len() by {
                assert(ch.name@ == v[i0].0);
                assert(topics_view(ch.topics@) == v[i0].1);
                assert(q1 as int == cur0 + enc_chan(v[i0]).len());
                assert(store_view(old_chans) == v.take(i0));
                assert(store_view(chans@) =~= v.take(i0 + 1));
                lemma_enc_chans_split(v.take(i0 + 1), i0);
                assert(v.take(i0 + 1).take(i0) =~= v.take(i0));
                assert(v.take(i0 + 1).skip(i0) =~= seq![v[i0]]);
                assert(enc_chans(seq![v[i0]]) == enc_chan(v[i0]) + enc_chans(
                    seq![v[i0]].drop_first(),
                ));
                assert(seq![v[i0]].drop_first() =~= Seq::<
                    (Seq<char>, Seq<(Seq<char>, Tracker)>),
                >::empty());
                assert(enc_chans(seq![v[i0]]) =~= enc_chan(v[i0]));
            }
        }
    }
    if cur != n {
        proof {
            assert forall|v: StoreV| !(store_wf_v(v) && s@ == spec_encode(v)) by {
                if store_wf_v(v) && s@ == spec_encode(v) {
                    assert(v.take(cnt as int) =~= v);
                    assert(cur as int == spec_encode(v).len());
                }
            }
        }
        return None;
    }
    let st = Store { channels: chans };
    proof {
        assert(st@.len() == cnt as nat);
        assert(s@ =~= s@.subrange(0, n as int));
        assert(s@ == enc_nat(st@.len()) + enc_chans(st@));
        assert forall|v: StoreV| store_wf_v(v) && s@ == spec_encode(v) implies st@ == v by {
            assert(v.take(cnt as int) =~= v);
        }
    }
    Some(st)
}

} // verus!
