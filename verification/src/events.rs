//! The payloads of the outbound wire events, each rendered to JSON text by a
//! function whose contract pins the exact character sequence.
//!
//! Event shapes: `start{users, channel}` (membership snapshot), `ue{nick,
//! channel}` (user joined), `ul{nick, channel}` (user left), `new-msg{f, m,
//! id, time, channel}`, `previous-msg`/`older-msgs` (arrays of the message
//! shape), `typing{status, channel, nick}`, and `force-login{type, message}`.

use crate::auth::{Rejection, RejectionKind};
use crate::codec::{
    dec_rep, json_bool, json_string, push_json_bool, push_json_string, push_literal,
    push_u64,
};
use crate::history::StoredMessage;
use crate::presence::names_of;
use vstd::prelude::*;

verus! {

/// The payload of a `ue` (user joined) or `ul` (user left) event.
pub open spec fn user_event_json(nick: Seq<char>, channel: Seq<char>) -> Seq<char> {
    "{\"nick\":"@ + json_string(nick) + ",\"channel\":"@ + json_string(channel) + "}"@
}

/// Renders a `ue`/`ul` payload.
pub fn render_user_event(nick: &String, channel: &String) -> (r: Vec<char>)
    ensures
        r@ == user_event_json(nick@, channel@),
{
    let mut out: Vec<char> = Vec::new();
    push_literal(&mut out, "{\"nick\":");
    push_json_string(&mut out, nick.as_str());
    push_literal(&mut out, ",\"channel\":");
    push_json_string(&mut out, channel.as_str());
    push_literal(&mut out, "}");
    proof {
        assert(out@ =~= user_event_json(nick@, channel@));
    }
    out
}

/// The items of a JSON array of strings, comma-separated.
pub open spec fn string_items_json(items: Seq<Seq<char>>) -> Seq<char>
    decreases items.len(),
{
    if items.len() == 0 {
        Seq::<char>::empty()
    } else if items.len() == 1 {
        json_string(items[0])
    } else {
        string_items_json(items.drop_last()) + ","@ + json_string(items.last())
    }
}

/// The payload of a `start` event: the membership snapshot handed to a newly
/// joined connection.
pub open spec fn start_json(users: Seq<Seq<char>>, channel: Seq<char>) -> Seq<char> {
    "{\"users\":["@ + string_items_json(users) + "],\"channel\":"@ + json_string(channel) + "}"@
}

/// Renders a `start` payload from a membership snapshot.
pub fn render_start_event(users: &Vec<String>, channel: &String) -> (r: Vec<char>)
    ensures
        r@ == start_json(names_of(users@), channel@),
{
    let mut out: Vec<char> = Vec::new();
    push_literal(&mut out, "{\"users\":[");
    let ghost base = out@;
    let mut i: usize = 0;
    while i < users.len()
        invariant
            0 <= i <= users@.len(),
            out@ == base + string_items_json(names_of(users@).subrange(0, i as int)),
        decreases users@.len() - i,
    {
        if i > 0 {
            push_literal(&mut out, ",");
        }
        push_json_string(&mut out, users[i].as_str());
        proof {
            let ns = names_of(users@);
            assert(ns.subrange(0, i + 1).drop_last() =~= ns.subrange(0, i as int));
            assert(ns.subrange(0, i + 1).last() == ns[i as int]);
            if i == 0 {
                assert(string_items_json(ns.subrange(0, 1)) == json_string(ns[0]));
            }
            assert(out@ =~= base + string_items_json(ns.subrange(0, i + 1)));
        }
        i = i + 1;
    }
    proof {
        assert(names_of(users@).subrange(0, users@.len() as int) =~= names_of(users@));
    }
    push_literal(&mut out, "],\"channel\":");
    push_json_string(&mut out, channel.as_str());
    push_literal(&mut out, "}");
    proof {
        assert(out@ =~= start_json(names_of(users@), channel@));
    }
    out
}

/// The message shape shared by `new-msg` and the history arrays: author
/// under `f`, body under `m`, identifier, epoch-millisecond time, channel.
pub open spec fn message_json(m: StoredMessage) -> Seq<char> {
    "{\"f\":"@ + json_string(m.author@) + ",\"m\":"@ + json_string(m.body@) + ",\"id\":"@
        + dec_rep(m.id as nat) + ",\"time\":"@ + dec_rep(m.sent_at_ms as nat) + ",\"channel\":"@
        + json_string(m.channel@) + "}"@
}

/// Appends the message shape for `m`.
fn push_message(out: &mut Vec<char>, m: &StoredMessage)
    ensures
        final(out)@ == old(out)@ + message_json(*m),
{
    push_literal(out, "{\"f\":");
    push_json_string(out, m.author.as_str());
    push_literal(out, ",\"m\":");
    push_json_string(out, m.body.as_str());
    push_literal(out, ",\"id\":");
    push_u64(out, m.id);
    push_literal(out, ",\"time\":");
    push_u64(out, m.sent_at_ms);
    push_literal(out, ",\"channel\":");
    push_json_string(out, m.channel.as_str());
    push_literal(out, "}");
    proof {
        assert(final(out)@ =~= old(out)@ + message_json(*m));
    }
}

/// Renders a `new-msg` payload.
pub fn render_message(m: &StoredMessage) -> (r: Vec<char>)
    ensures
        r@ == message_json(*m),
{
    let mut out: Vec<char> = Vec::new();
    push_message(&mut out, m);
    proof {
        assert(out@ =~= message_json(*m));
    }
    out
}

/// The items of a JSON array of message shapes, comma-separated.
pub open spec fn message_items_json(items: Seq<StoredMessage>) -> Seq<char>
    decreases items.len(),
{
    if items.len() == 0 {
        Seq::<char>::empty()
    } else if items.len() == 1 {
        message_json(items[0])
    } else {
        message_items_json(items.drop_last()) + ","@ + message_json(items.last())
    }
}

/// The payload of a `previous-msg` or `older-msgs` event: a history page as
/// a JSON array, in the page's order.
pub open spec fn messages_json(items: Seq<StoredMessage>) -> Seq<char> {
    "["@ + message_items_json(items) + "]"@
}

/// Renders a history page payload.
pub fn render_messages(msgs: &Vec<StoredMessage>) -> (r: Vec<char>)
    ensures
        r@ == messages_json(msgs@),
{
    let mut out: Vec<char> = Vec::new();
    push_literal(&mut out, "[");
    let ghost base = out@;
    let mut i: usize = 0;
    while i < msgs.len()
        invariant
            0 <= i <= msgs@.len(),
            out@ == base + message_items_json(msgs@.subrange(0, i as int)),
        decreases msgs@.len() - i,
    {
        if i > 0 {
            push_literal(&mut out, ",");
        }
        push_message(&mut out, &msgs[i]);
        proof {
            assert(msgs@.subrange(0, i + 1).drop_last() =~= msgs@.subrange(0, i as int));
            assert(msgs@.subrange(0, i + 1).last() == msgs@[i as int]);
            if i == 0 {
                assert(message_items_json(msgs@.subrange(0, 1)) == message_json(msgs@[0]));
            }
            assert(out@ =~= base + message_items_json(msgs@.subrange(0, i + 1)));
        }
        i = i + 1;
    }
    proof {
        assert(msgs@.subrange(0, msgs@.len() as int) =~= msgs@);
    }
    push_literal(&mut out, "]");
    proof {
        assert(out@ =~= messages_json(msgs@));
    }
    out
}

/// The payload of a `typing` event: fire-and-forget, never persisted.
pub open spec fn typing_json(nick: Seq<char>, status: bool, channel: Seq<char>) -> Seq<char> {
    "{\"status\":"@ + json_bool(status) + ",\"channel\":"@ + json_string(channel) + ",\"nick\":"@
        + json_string(nick) + "}"@
}

/// Renders a `typing` payload.
pub fn render_typing(nick: &String, status: bool, channel: &String) -> (r: Vec<char>)
    ensures
        r@ == typing_json(nick@, status, channel@),
{
    let mut out: Vec<char> = Vec::new();
    push_literal(&mut out, "{\"status\":");
    push_json_bool(&mut out, status);
    push_literal(&mut out, ",\"channel\":");
    push_json_string(&mut out, channel.as_str());
    push_literal(&mut out, ",\"nick\":");
    push_json_string(&mut out, nick.as_str());
    push_literal(&mut out, "}");
    proof {
        assert(out@ =~= typing_json(nick@, status, channel@));
    }
    out
}

/// The wire word of a rejection classification.
pub open spec fn kind_word(k: RejectionKind) -> Seq<char> {
    match k {
        RejectionKind::Login => "login"@,
        RejectionKind::Auth => "auth"@,
        RejectionKind::Server => "server"@,
    }
}

/// The payload of a `force-login` rejection event.
pub open spec fn rejection_json(k: RejectionKind, message: Seq<char>) -> Seq<char> {
    "{\"type\":\""@ + kind_word(k) + "\",\"message\":"@ + json_string(message) + "}"@
}

/// Renders a `force-login` payload.
pub fn render_rejection(r: &Rejection) -> (out: Vec<char>)
    ensures
        out@ == rejection_json(r.kind, r.message@),
{
    let mut out: Vec<char> = Vec::new();
    push_literal(&mut out, "{\"type\":\"");
    match r.kind {
        RejectionKind::Login => push_literal(&mut out, "login"),
        RejectionKind::Auth => push_literal(&mut out, "auth"),
        RejectionKind::Server => push_literal(&mut out, "server"),
    }
    push_literal(&mut out, "\",\"message\":");
    push_json_string(&mut out, r.message.as_str());
    push_literal(&mut out, "}");
    proof {
        assert(out@ =~= rejection_json(r.kind, r.message@));
    }
    out
}

} // verus!
