//! Deciding whether an inbound message is an addressed command.
//!
//! Given the bot's own nick, the message target, the sender and the raw
//! text, the parser decides whether the message addresses the bot and, if
//! so, yields the reply target and the command body.

use vstd::prelude::*;
use crate::text::{spec_trim, spec_starts_with, str_eq, starts_with_str, trim_str};

verus! {

/// The addressing rules.  A direct message (target is the bot's nick) is
/// always a command whose body is the full trimmed text and whose reply
/// target is the sender.  A channel message is a command only when its
/// trimmed text begins with the bot's nick immediately followed by `,` or
/// `:`; the body is the trimmed remainder and the reply target is the
/// channel.  Anything else is not a command.
pub open spec fn spec_parse_command(
    nick: Seq<char>,
    target: Seq<char>,
    source: Seq<char>,
    text: Seq<char>,
) -> Option<(Seq<char>, Seq<char>)> {
    let trimmed = spec_trim(text);
    if target == nick {
        Some((source, trimmed))
    } else if trimmed.len() > nick.len() && trimmed.take(nick.len() as int) == nick && (
    trimmed[nick.len() as int] == ',' || trimmed[nick.len() as int] == ':') {
        Some((target, spec_trim(trimmed.skip(nick.len() as int + 1))))
    } else {
        None
    }
}

/// Decide whether the message is an addressed command; on success return
/// the reply target and the command body, per [`spec_parse_command`].
pub fn parse_command(bot_nick: &str, target: &str, source_nick: &str, text: &str) -> (r: Option<
    (String, String),
>)
    ensures
        r is Some <==> spec_parse_command(bot_nick@, target@, source_nick@, text@) is Some,
        r matches Some(p) ==> spec_parse_command(bot_nick@, target@, source_nick@, text@)
            matches Some(q) && p.0@ == q.0 && p.1@ == q.1,
{
    let trimmed = trim_str(text);
    if str_eq(target, bot_nick) {
        Some((source_nick.to_owned(), trimmed))
    } else {
        let tl = trimmed.as_str().unicode_len();
        let nl = bot_nick.unicode_len();
        if tl > nl && starts_with_str(trimmed.as_str(), bot_nick) {
            let sep = trimmed.as_str().get_char(nl);
            if sep == ',' || sep == ':' {
                let rest = trimmed.as_str().substring_char(nl + 1, tl);
                let body = trim_str(rest);
                Some((target.to_owned(), body))
            } else {
                None
            }
        } else {
            None
        }
    }
}

/// Law: a direct message is always recognized, and the command body is the
/// full trimmed text, whatever it holds.
pub proof fn lemma_direct_message_always_command(
    nick: Seq<char>,
    source: Seq<char>,
    text: Seq<char>,
)
    ensures
        spec_parse_command(nick, nick, source, text) == Some((source, spec_trim(text))),
{
}

/// Law: in a channel, the bot's nick alone is not enough: without a `,` or
/// `:` immediately after the nick, the message is not a command.
pub proof fn lemma_channel_needs_separator(
    nick: Seq<char>,
    target: Seq<char>,
    source: Seq<char>,
    text: Seq<char>,
)
    requires
        target != nick,
        spec_starts_with(spec_trim(text), nick),
        spec_trim(text).len() > nick.len() ==> spec_trim(text)[nick.len() as int] != ','
            && spec_trim(text)[nick.len() as int] != ':',
    ensures
        spec_parse_command(nick, target, source, text) is None,
{
}

/// Law: a channel command whose body is empty after the prefix is stripped
/// is still a command, with the empty string as its body.
pub proof fn lemma_empty_body_is_command(
    nick: Seq<char>,
    target: Seq<char>,
    source: Seq<char>,
    text: Seq<char>,
)
    requires
        target != nick,
        spec_trim(text) == nick.push(':'),
    ensures
        spec_parse_command(nick, target, source, text) == Some((target, Seq::<char>::empty())),
{
    let trimmed = spec_trim(text);
    assert(trimmed.len() == nick.len() + 1);
    assert(trimmed.take(nick.len() as int) =~= nick);
    assert(trimmed[nick.len() as int] == ':');
    assert(trimmed.skip(nick.len() as int + 1) =~= Seq::<char>::empty());
}

} // verus!
