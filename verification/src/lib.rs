//! A topic-duration tracking library for a chat bot.
//!
//! The library recognizes addressed commands in chat messages, tracks how
//! long it has been since a topic was last mentioned in a channel (together
//! with the longest gap ever observed), formats the bot's replies, and
//! encodes / decodes the on-disk snapshot that makes the bookkeeping durable.

pub mod casefold;
pub mod digits;
pub mod codec;
pub mod dispatch;
pub mod parser;
pub mod store;
pub mod timefmt;
pub mod text;
pub mod tracker;
