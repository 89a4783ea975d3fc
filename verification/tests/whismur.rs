use whismur::dispatch::handle_message;
use whismur::codec::{encode_store, decode_store};
use whismur::parser::parse_command;
use whismur::store::Store;
use whismur::text::{trim_str, str_eq, starts_with_str};
use whismur::tracker::Tracker;

const DAY: u64 = 86400;

#[test]
fn first_mention_starts_tracking() {
    let mut store = Store::new();
    let r = handle_message(&mut store, 1000, "whismur", "#c", "alice", "whismur: foo").unwrap();
    assert_eq!(r.target, "#c");
    assert_eq!(r.text, "Now tracking \"foo\" for #c.");
    assert_eq!(store.channels.len(), 1);
    assert_eq!(store.channels[0].name, "#c");
    assert_eq!(store.channels[0].topics.len(), 1);
    assert_eq!(store.channels[0].topics[0].key, "foo");
    assert_eq!(store.channels[0].topics[0].tracker.last_mention, 1000);
    assert_eq!(store.channels[0].topics[0].tracker.record, Some(0));
}

#[test]
fn second_mention_reports_days_and_updates_record() {
    let mut store = Store::new();
    handle_message(&mut store, 1000, "whismur", "#c", "alice", "whismur: foo").unwrap();
    let now2 = 1000 + 3 * DAY;
    let r = handle_message(&mut store, now2, "whismur", "#c", "bob", "whismur: foo").unwrap();
    assert_eq!(r.target, "#c");
    assert_eq!(r.text, "It has been [3] days since #c discussed \"foo\". Record: [0]");
    assert_eq!(store.channels[0].topics[0].tracker.record, Some(3));
    assert_eq!(store.channels[0].topics[0].tracker.last_mention, now2);
}

#[test]
fn same_day_mention_uses_fine_time_and_keeps_record() {
    let mut store = Store::new();
    handle_message(&mut store, 1000, "whismur", "#c", "alice", "whismur: foo").unwrap();
    let now2 = 1000 + 3 * DAY;
    handle_message(&mut store, now2, "whismur", "#c", "bob", "whismur: foo").unwrap();
    let now3 = now2 + 3723; // 1 hour, 2 minutes, 3 seconds later
    let r = handle_message(&mut store, now3, "whismur", "#c", "eve", "whismur: foo").unwrap();
    assert_eq!(r.text, "It has been 1:02:03 since #c discussed \"foo\". Record: [3] days");
    assert_eq!(store.channels[0].topics[0].tracker.record, Some(3));
    assert_eq!(store.channels[0].topics[0].tracker.last_mention, now3);
}

#[test]
fn direct_message_is_always_a_command() {
    // Even text that starts with the bot's own nick is taken whole.
    let r = parse_command("whismur", "whismur", "alice", "  whismur: foo  ").unwrap();
    assert_eq!(r.0, "alice");
    assert_eq!(r.1, "whismur: foo");
}

#[test]
fn direct_message_reply_goes_to_sender() {
    let mut store = Store::new();
    let r = handle_message(&mut store, 5, "whismur", "whismur", "alice", "tea").unwrap();
    assert_eq!(r.target, "alice");
    assert_eq!(r.text, "Now tracking \"tea\" for alice.");
    assert_eq!(store.channels[0].name, "alice");
}

#[test]
fn channel_message_needs_separator() {
    assert!(parse_command("whismur", "#c", "alice", "whismurhello").is_none());
    assert!(parse_command("whismur", "#c", "alice", "whismur").is_none());
    assert!(parse_command("whismur", "#c", "alice", "hello whismur: foo").is_none());
    // Nick matching is case-sensitive.
    assert!(parse_command("whismur", "#c", "alice", "Whismur: foo").is_none());
}

#[test]
fn channel_message_with_separator_is_a_command() {
    let r = parse_command("whismur", "#c", "alice", "  whismur:   foo bar  ").unwrap();
    assert_eq!(r.0, "#c");
    assert_eq!(r.1, "foo bar");
    let r = parse_command("whismur", "#c", "alice", "whismur,beans").unwrap();
    assert_eq!(r.0, "#c");
    assert_eq!(r.1, "beans");
}

#[test]
fn empty_body_is_a_command_for_the_empty_topic() {
    let r = parse_command("whismur", "#c", "alice", "whismur: ").unwrap();
    assert_eq!(r.0, "#c");
    assert_eq!(r.1, "");
    let mut store = Store::new();
    let rep = handle_message(&mut store, 5, "whismur", "#c", "alice", "whismur:").unwrap();
    assert_eq!(rep.text, "Now tracking \"\" for #c.");
    assert_eq!(store.channels[0].topics[0].key, "");
}

#[test]
fn topics_are_case_insensitive() {
    let mut store = Store::new();
    handle_message(&mut store, 1000, "whismur", "#c", "alice", "whismur: Foo").unwrap();
    let now2 = 1000 + 2 * DAY;
    let r = handle_message(&mut store, now2, "whismur", "#c", "bob", "whismur: fOO").unwrap();
    // Same tracker: the second mention reports a gap instead of starting anew.
    assert_eq!(r.text, "It has been [2] days since #c discussed \"fOO\". Record: [0]");
    assert_eq!(store.channels[0].topics.len(), 1);
    assert_eq!(store.channels[0].topics[0].key, "foo");
    assert_eq!(store.channels[0].topics[0].tracker.record, Some(2));
}

#[test]
fn channels_are_case_sensitive_and_independent() {
    let mut store = Store::new();
    handle_message(&mut store, 1000, "whismur", "#c", "alice", "whismur: foo").unwrap();
    let r = handle_message(&mut store, 2000, "whismur", "#C", "alice", "whismur: foo").unwrap();
    assert_eq!(r.text, "Now tracking \"foo\" for #C.");
    assert_eq!(store.channels.len(), 2);
}

#[test]
fn non_command_changes_nothing() {
    let mut store = Store::new();
    let r = handle_message(&mut store, 1000, "whismur", "#c", "alice", "just chatting");
    assert!(r.is_none());
    assert_eq!(store.channels.len(), 0);
}

#[test]
fn get_or_create_is_idempotent() {
    let mut store = Store::new();
    let (c1, t1) = store.get_or_create("#c", "foo", 50);
    let (c2, t2) = store.get_or_create("#c", "foo", 999);
    assert_eq!((c1, t1), (c2, t2));
    assert_eq!(store.channels.len(), 1);
    assert_eq!(store.channels[0].topics.len(), 1);
    // The second call did not disturb the tracker the first call made.
    assert_eq!(store.tracker_at(c2, t2).last_mention, 50);
    assert_eq!(store.tracker_at(c2, t2).record, None);
}

#[test]
fn tracker_arithmetic() {
    let t = Tracker { last_mention: 1000, record: None };
    assert_eq!(t.days_since_last(1000 + 5 * DAY + 7), 5);
    let t2 = Tracker { last_mention: 0, record: None };
    assert_eq!(t2.fine_time_since_last(26 * 3600 + 4 * 60 + 9), (26, 4, 9));
}

#[test]
fn reset_takes_maximum_of_record_and_gap() {
    let mut t = Tracker { last_mention: 0, record: None };
    t.reset(4 * DAY);
    assert_eq!(t.record, Some(4));
    assert_eq!(t.last_mention, 4 * DAY);
    t.reset(4 * DAY + 2 * DAY);
    assert_eq!(t.record, Some(4)); // 2 < 4: the record stands
    t.reset(4 * DAY + 2 * DAY + 9 * DAY);
    assert_eq!(t.record, Some(9));
}

#[test]
fn snapshot_text_is_exact() {
    let mut store = Store::new();
    store.get_or_create("#c", "foo", 0);
    let s = encode_store(&store);
    assert_eq!(s, "1\n2\n#c\n1\n3\nfoo\n20\n1970-01-01T00:00:00Z\n-\n");
}

#[test]
fn snapshot_round_trip() {
    let mut store = Store::new();
    handle_message(&mut store, 1000, "whismur", "#c", "alice", "whismur: foo").unwrap();
    handle_message(&mut store, 1000 + 3 * DAY, "whismur", "#c", "bob", "whismur: foo").unwrap();
    handle_message(&mut store, 2000, "whismur", "#d", "eve", "whismur: Tea Time").unwrap();
    handle_message(&mut store, 3000, "whismur", "whismur", "carol", "scones").unwrap();
    let s = encode_store(&store);
    let back = decode_store(s.as_str()).unwrap();
    assert_eq!(back.channels.len(), store.channels.len());
    for (a, b) in back.channels.iter().zip(store.channels.iter()) {
        assert_eq!(a.name, b.name);
        assert_eq!(a.topics.len(), b.topics.len());
        for (x, y) in a.topics.iter().zip(b.topics.iter()) {
            assert_eq!(x.key, y.key);
            assert_eq!(x.tracker.last_mention, y.tracker.last_mention);
            assert_eq!(x.tracker.record, y.tracker.record);
        }
    }
}

#[test]
fn snapshot_decodes_handwritten_text() {
    let text = "1\n2\n#c\n1\n3\nfoo\n20\n1970-01-02T00:00:00Z\n7\n";
    let store = decode_store(text).unwrap();
    assert_eq!(store.channels.len(), 1);
    assert_eq!(store.channels[0].name, "#c");
    assert_eq!(store.channels[0].topics[0].key, "foo");
    assert_eq!(store.channels[0].topics[0].tracker.last_mention, DAY);
    assert_eq!(store.channels[0].topics[0].tracker.record, Some(7));
}

#[test]
fn snapshot_rejects_malformed_text() {
    assert!(decode_store("").is_none());
    assert!(decode_store("garbage").is_none());
    assert!(decode_store("1\n").is_none());
    assert!(decode_store("1\n2\n#c\n1\n3\nfoo\n20\nnot-a-timestamp-here\n-\n").is_none());
    // Trailing bytes after a well-formed snapshot are refused.
    assert!(decode_store("0\nx").is_none());
    // The empty store decodes.
    assert!(decode_store("0\n").is_some());
}

#[test]
fn empty_store_round_trip() {
    let store = Store::new();
    let s = encode_store(&store);
    assert_eq!(s, "0\n");
    let back = decode_store(s.as_str()).unwrap();
    assert_eq!(back.channels.len(), 0);
}

#[test]
fn all_before_checks_every_tracker() {
    let mut store = Store::new();
    handle_message(&mut store, 1000, "whismur", "#c", "alice", "whismur: foo").unwrap();
    assert!(store.all_before(1000));
    assert!(store.all_before(5000));
    assert!(!store.all_before(999));
}

#[test]
fn text_helpers_behave_like_std() {
    assert_eq!(trim_str("  a b\t\n"), "a b");
    assert_eq!(trim_str(""), "");
    assert_eq!(trim_str(" \t "), "");
    assert!(str_eq("abc", "abc"));
    assert!(!str_eq("abc", "abd"));
    assert!(!str_eq("abc", "ab"));
    assert!(starts_with_str("whismur: foo", "whismur"));
    assert!(!starts_with_str("whismu", "whismur"));
}

#[test]
fn reply_formats_large_and_padded_numbers() {
    let mut store = Store::new();
    handle_message(&mut store, 0, "whismur", "#c", "alice", "whismur: foo").unwrap();
    let now2 = 123 * DAY;
    let r = handle_message(&mut store, now2, "whismur", "#c", "bob", "whismur: foo").unwrap();
    assert_eq!(r.text, "It has been [123] days since #c discussed \"foo\". Record: [0]");
    let now3 = now2 + 59;
    let r = handle_message(&mut store, now3, "whismur", "#c", "bob", "whismur: foo").unwrap();
    assert_eq!(r.text, "It has been 0:00:59 since #c discussed \"foo\". Record: [123] days");
}
