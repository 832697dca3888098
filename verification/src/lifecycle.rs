//! The session lifecycle: login, message send, typing, history load and
//! disconnect, each a decision from connection state and inbound event to
//! delivery directives. A directive names the transport primitive to use —
//! the channel multicast, which excludes the originating connection, or a
//! direct send to that connection — so a sender that must observe its own
//! action gets it on the direct path exactly once, never twice. Carrying out
//! a directive is fire-and-forget: delivery to a connection that has since
//! gone is a tolerated failure, not an error.

use crate::auth::{Rejection, RejectionKind};
use crate::events::{
    message_json, messages_json, render_message, render_messages, render_start_event,
    render_typing, render_user_event, start_json, typing_json, user_event_json,
};
use crate::history::{page_spec, visible_page_spec, MessageStore, StoredMessage};
use crate::presence::{after_join, after_leave, name_set, names_of, PresenceRegistry};
use crate::session::Session;
use vstd::prelude::*;

verus! {

/// Where one delivery goes.
pub enum DeliveryTarget {
    /// The originating connection, directly.
    Sender,
    /// Every connection joined to the channel except the originating one:
    /// the transport's multicast primitive.
    Others {
        /// The channel to multicast to.
        channel: String,
    },
}

/// One delivery for the transport to carry out: an event name, its JSON
/// payload, and where it goes.
pub struct Directive {
    /// Where the delivery goes.
    pub target: DeliveryTarget,
    /// The event name on the wire.
    pub event: String,
    /// The event payload, as JSON text.
    pub payload: Vec<char>,
}

/// Whether `d` sends `event` with `payload` directly to the originating
/// connection.
pub open spec fn to_sender(d: Directive, event: Seq<char>, payload: Seq<char>) -> bool {
    &&& d.target is Sender
    &&& d.event@ == event
    &&& d.payload@ == payload
}

/// Whether `d` multicasts `event` with `payload` to `channel`, the
/// originating connection excluded.
pub open spec fn to_others(
    d: Directive,
    channel: Seq<char>,
    event: Seq<char>,
    payload: Seq<char>,
) -> bool {
    &&& d.target matches DeliveryTarget::Others { channel: c } && c@ == channel
    &&& d.event@ == event
    &&& d.payload@ == payload
}

/// The state of one connection: a session exists exactly from successful
/// login to disconnect.
pub enum ConnectionState {
    /// No login yet (or a failed one): only a login attempt is allowed.
    Unauthenticated,
    /// Logged in as the carried session.
    Authenticated(Session),
}

/// What one presence join observed, atomically with the insert.
pub struct ChannelJoin {
    /// The channel joined.
    pub channel: String,
    /// The channel's members right after the insert.
    pub snapshot: Vec<String>,
    /// Whether the user was newly added by this join.
    pub was_new: bool,
}

/// Joins one connection of the session's user to every channel of the
/// session, in the session's order, and reports each join's snapshot and
/// whether it made the user a member there — true exactly where the user
/// held no live connection yet. No channel outside the list, and no other
/// user's count, changes.
pub fn join_all(registry: &mut PresenceRegistry, session: &Session) -> (joins: Vec<ChannelJoin>)
    requires
        session.wf(),
    ensures
        joins@.len() == session.channels@.len(),
        forall|i: int|
            0 <= i < joins@.len() ==> (#[trigger] joins@[i]).channel@ == session.channels@[i]@,
        forall|i: int|
            0 <= i < joins@.len() ==> (#[trigger] joins@[i]).was_new == (old(registry).connections(
                session.channels@[i]@,
                session.nick@,
            ) == 0),
        forall|i: int|
            0 <= i < joins@.len() ==> name_set((#[trigger] joins@[i]).snapshot@) == old(
                registry,
            ).members_of(session.channels@[i]@).insert(session.nick@),
        forall|i: int|
            0 <= i < joins@.len() ==> names_of((#[trigger] joins@[i]).snapshot@).no_duplicates(),
        forall|c: Seq<char>, u: Seq<char>|
            final(registry).connections(c, u) == if u == session.nick@ && name_set(
                session.channels@,
            ).contains(c) {
                after_join(old(registry).connections(c, u))
            } else {
                old(registry).connections(c, u)
            },
        forall|c: Seq<char>|
            final(registry).members_of(c) == if name_set(session.channels@).contains(c) {
                old(registry).members_of(c).insert(session.nick@)
            } else {
                old(registry).members_of(c)
            },
{
    let mut joins: Vec<ChannelJoin> = Vec::new();
    let mut i: usize = 0;
    while i < session.channels.len()
        invariant
            session.wf(),
            0 <= i <= session.channels@.len(),
            joins@.len() == i,
            forall|k: int|
                0 <= k < i ==> (#[trigger] joins@[k]).channel@ == session.channels@[k]@,
            forall|k: int|
                0 <= k < i ==> (#[trigger] joins@[k]).was_new == (old(registry).connections(
                    session.channels@[k]@,
                    session.nick@,
                ) == 0),
            forall|k: int|
                0 <= k < i ==> name_set((#[trigger] joins@[k]).snapshot@) == old(
                    registry,
                ).members_of(session.channels@[k]@).insert(session.nick@),
            forall|k: int|
                0 <= k < i ==> names_of((#[trigger] joins@[k]).snapshot@).no_duplicates(),
            forall|c: Seq<char>, u: Seq<char>|
                registry.connections(c, u) == if u == session.nick@ && name_set(
                    session.channels@.subrange(0, i as int),
                ).contains(c) {
                    after_join(old(registry).connections(c, u))
                } else {
                    old(registry).connections(c, u)
                },
            forall|c: Seq<char>|
                registry.members_of(c) == if name_set(session.channels@.subrange(0, i as int)).contains(c) {
                    old(registry).members_of(c).insert(session.nick@)
                } else {
                    old(registry).members_of(c)
                },
        decreases session.channels@.len() - i,
    {
        let channel = &session.channels[i];
        proof {
            let prefix = session.channels@.subrange(0, i as int);
            assert(!name_set(prefix).contains(channel@)) by {
                if name_set(prefix).contains(channel@) {
                    let j = choose|j: int|
                        0 <= j < prefix.len() && names_of(prefix)[j] == channel@;
                    assert(names_of(session.channels@)[j] == channel@);
                    assert(names_of(session.channels@)[i as int] == channel@);
                }
            }
        }
        let (snapshot, was_new) = registry.join(channel, &session.nick);
        proof {
            let prefix = session.channels@.subrange(0, i as int);
            let longer = session.channels@.subrange(0, i + 1);
            assert(names_of(longer).to_set().contains(channel@)) by {
                assert(names_of(longer)[i as int] == channel@);
            }
            assert forall|c: Seq<char>| c != channel@ implies (name_set(longer).contains(c)
                == name_set(prefix).contains(c)) by {
                if name_set(longer).contains(c) {
                    let j = choose|j: int| 0 <= j < longer.len() && names_of(longer)[j] == c;
                    assert(j < i);
                    assert(names_of(prefix)[j] == c);
                }
                if name_set(prefix).contains(c) {
                    let j = choose|j: int| 0 <= j < prefix.len() && names_of(prefix)[j] == c;
                    assert(names_of(longer)[j] == c);
                }
            }
        }
        joins.push(ChannelJoin { channel: channel.clone(), snapshot, was_new });
        i = i + 1;
    }
    proof {
        assert(session.channels@.subrange(0, session.channels@.len() as int) =~= session.channels@);
    }
    joins
}

/// Whether `ds` is the event block for one channel join: the membership
/// snapshot to the joining connection, and — exactly when the join was new —
/// one "user joined" event to the channel and one to the joiner, so the
/// joiner observes it once even when alone in the channel.
pub open spec fn join_block(j: ChannelJoin, nick: Seq<char>, ds: Seq<Directive>) -> bool {
    let snapshot_payload = start_json(names_of(j.snapshot@), j.channel@);
    let joined_payload = user_event_json(nick, j.channel@);
    &&& ds.len() == if j.was_new {
        3int
    } else {
        1int
    }
    &&& to_sender(ds[0], "start"@, snapshot_payload)
    &&& (j.was_new ==> to_others(ds[1], j.channel@, "ue"@, joined_payload) && to_sender(
        ds[2],
        "ue"@,
        joined_payload,
    ))
}

/// The event blocks for a list of joins, one block per join, in order; the
/// transport delivers them block by block.
pub fn join_directives(joins: &Vec<ChannelJoin>, nick: &String) -> (blocks: Vec<Vec<Directive>>)
    ensures
        blocks@.len() == joins@.len(),
        forall|i: int|
            0 <= i < joins@.len() ==> join_block(joins@[i], nick@, (#[trigger] blocks@[i])@),
{
    let mut blocks: Vec<Vec<Directive>> = Vec::new();
    let mut i: usize = 0;
    while i < joins.len()
        invariant
            0 <= i <= joins@.len(),
            blocks@.len() == i,
            forall|k: int|
                0 <= k < i ==> join_block(joins@[k], nick@, (#[trigger] blocks@[k])@),
        decreases joins@.len() - i,
    {
        let j = &joins[i];
        let mut block: Vec<Directive> = Vec::new();
        block.push(
            Directive {
                target: DeliveryTarget::Sender,
                event: String::from_str("start"),
                payload: render_start_event(&j.snapshot, &j.channel),
            },
        );
        if j.was_new {
            let payload = render_user_event(nick, &j.channel);
            let mut copy: Vec<char> = Vec::new();
            copy.extend_from_slice(payload.as_slice());
            proof {
                assert(copy@ =~= payload@);
            }
            block.push(
                Directive {
                    target: DeliveryTarget::Others { channel: j.channel.clone() },
                    event: String::from_str("ue"),
                    payload,
                },
            );
            block.push(
                Directive {
                    target: DeliveryTarget::Sender,
                    event: String::from_str("ue"),
                    payload: copy,
                },
            );
        }
        blocks.push(block);
        i = i + 1;
    }
    blocks
}

/// What one presence leave observed.
pub struct ChannelLeave {
    /// The channel left.
    pub channel: String,
    /// Whether the user was a member when the leave ran.
    pub was_member: bool,
}

/// Removes one connection of the session's user from every channel of the
/// session — every one is attempted whatever the earlier ones found — and
/// reports which leaves ended a membership: exactly those where this was the
/// user's last live connection. Running this twice for one connection ends
/// no membership the second time; a membership another live connection still
/// holds survives.
pub fn leave_all(registry: &mut PresenceRegistry, session: &Session) -> (leaves: Vec<ChannelLeave>)
    requires
        session.wf(),
    ensures
        leaves@.len() == session.channels@.len(),
        forall|i: int|
            0 <= i < leaves@.len() ==> (#[trigger] leaves@[i]).channel@ == session.channels@[i]@,
        forall|i: int|
            0 <= i < leaves@.len() ==> (#[trigger] leaves@[i]).was_member == (old(
                registry,
            ).connections(session.channels@[i]@, session.nick@) == 1),
        forall|c: Seq<char>, u: Seq<char>|
            final(registry).connections(c, u) == if u == session.nick@ && name_set(
                session.channels@,
            ).contains(c) {
                after_leave(old(registry).connections(c, u))
            } else {
                old(registry).connections(c, u)
            },
        forall|c: Seq<char>|
            final(registry).members_of(c) == if name_set(session.channels@).contains(c) && old(
                registry,
            ).connections(c, session.nick@) == 1 {
                old(registry).members_of(c).remove(session.nick@)
            } else {
                old(registry).members_of(c)
            },
{
    let mut leaves: Vec<ChannelLeave> = Vec::new();
    let mut i: usize = 0;
    while i < session.channels.len()
        invariant
            session.wf(),
            0 <= i <= session.channels@.len(),
            leaves@.len() == i,
            forall|k: int|
                0 <= k < i ==> (#[trigger] leaves@[k]).channel@ == session.channels@[k]@,
            forall|k: int|
                0 <= k < i ==> (#[trigger] leaves@[k]).was_member == (old(registry).connections(
                    session.channels@[k]@,
                    session.nick@,
                ) == 1),
            forall|c: Seq<char>, u: Seq<char>|
                registry.connections(c, u) == if u == session.nick@ && name_set(
                    session.channels@.subrange(0, i as int),
                ).contains(c) {
                    after_leave(old(registry).connections(c, u))
                } else {
                    old(registry).connections(c, u)
                },
            forall|c: Seq<char>|
                registry.members_of(c) == if name_set(session.channels@.subrange(0, i as int)).contains(c)
                    && old(registry).connections(c, session.nick@) == 1 {
                    old(registry).members_of(c).remove(session.nick@)
                } else {
                    old(registry).members_of(c)
                },
        decreases session.channels@.len() - i,
    {
        let channel = &session.channels[i];
        proof {
            let prefix = session.channels@.subrange(0, i as int);
            assert(!name_set(prefix).contains(channel@)) by {
                if name_set(prefix).contains(channel@) {
                    let j = choose|j: int|
                        0 <= j < prefix.len() && names_of(prefix)[j] == channel@;
                    assert(names_of(session.channels@)[j] == channel@);
                    assert(names_of(session.channels@)[i as int] == channel@);
                }
            }
        }
        let was_member = registry.leave(channel, &session.nick);
        proof {
            let prefix = session.channels@.subrange(0, i as int);
            let longer = session.channels@.subrange(0, i + 1);
            assert(names_of(longer).to_set().contains(channel@)) by {
                assert(names_of(longer)[i as int] == channel@);
            }
            assert forall|c: Seq<char>| c != channel@ implies (name_set(longer).contains(c)
                == name_set(prefix).contains(c)) by {
                if name_set(longer).contains(c) {
                    let j = choose|j: int| 0 <= j < longer.len() && names_of(longer)[j] == c;
                    assert(j < i);
                    assert(names_of(prefix)[j] == c);
                }
                if name_set(prefix).contains(c) {
                    let j = choose|j: int| 0 <= j < prefix.len() && names_of(prefix)[j] == c;
                    assert(names_of(longer)[j] == c);
                }
            }
        }
        leaves.push(ChannelLeave { channel: channel.clone(), was_member });
        i = i + 1;
    }
    proof {
        assert(session.channels@.subrange(0, session.channels@.len() as int) =~= session.channels@);
    }
    leaves
}

/// Whether `ds` is the event block for one channel leave: exactly when the
/// user was a member, one "user left" event to the channel and one to the
/// leaving connection; nothing otherwise.
pub open spec fn leave_block(l: ChannelLeave, nick: Seq<char>, ds: Seq<Directive>) -> bool {
    let left_payload = user_event_json(nick, l.channel@);
    &&& ds.len() == if l.was_member {
        2int
    } else {
        0int
    }
    &&& (l.was_member ==> to_others(ds[0], l.channel@, "ul"@, left_payload) && to_sender(
        ds[1],
        "ul"@,
        left_payload,
    ))
}

/// The event blocks for a list of leaves, one block per leave, in order.
pub fn leave_directives(leaves: &Vec<ChannelLeave>, nick: &String) -> (blocks: Vec<Vec<Directive>>)
    ensures
        blocks@.len() == leaves@.len(),
        forall|i: int|
            0 <= i < leaves@.len() ==> leave_block(leaves@[i], nick@, (#[trigger] blocks@[i])@),
{
    let mut blocks: Vec<Vec<Directive>> = Vec::new();
    let mut i: usize = 0;
    while i < leaves.len()
        invariant
            0 <= i <= leaves@.len(),
            blocks@.len() == i,
            forall|k: int|
                0 <= k < i ==> leave_block(leaves@[k], nick@, (#[trigger] blocks@[k])@),
        decreases leaves@.len() - i,
    {
        let l = &leaves[i];
        let mut block: Vec<Directive> = Vec::new();
        if l.was_member {
            let payload = render_user_event(nick, &l.channel);
            let mut copy: Vec<char> = Vec::new();
            copy.extend_from_slice(payload.as_slice());
            proof {
                assert(copy@ =~= payload@);
            }
            block.push(
                Directive {
                    target: DeliveryTarget::Others { channel: l.channel.clone() },
                    event: String::from_str("ul"),
                    payload,
                },
            );
            block.push(
                Directive {
                    target: DeliveryTarget::Sender,
                    event: String::from_str("ul"),
                    payload: copy,
                },
            );
        }
        blocks.push(block);
        i = i + 1;
    }
    blocks
}

/// Decides whether a message send is allowed: the connection must hold a
/// session and the channel must be among the session's authorized channels.
pub fn authorize_send(state: &ConnectionState, channel: &String) -> (r: Result<(), Rejection>)
    ensures
        r is Ok <==> (state matches ConnectionState::Authenticated(s) && s.authorized(channel@)),
        match r {
            Ok(u) => true,
            Err(e) => e.kind == RejectionKind::Auth && if state is Unauthenticated {
                e.message@ == "You need to be logged in to send messages."@
            } else {
                e.message@ == "You are not in this channel."@
            },
        },
{
    match state {
        ConnectionState::Unauthenticated => Err(
            Rejection {
                kind: RejectionKind::Auth,
                message: String::from_str("You need to be logged in to send messages."),
            },
        ),
        ConnectionState::Authenticated(s) => {
            if s.is_authorized(channel) {
                Ok(())
            } else {
                Err(
                    Rejection {
                        kind: RejectionKind::Auth,
                        message: String::from_str("You are not in this channel."),
                    },
                )
            }
        },
    }
}

/// The event block for one persisted message: the message to the channel
/// and, on the direct path, the echo to the sender — each recipient,
/// sender included, observes it exactly once.
pub fn message_directives(m: &StoredMessage) -> (ds: Vec<Directive>)
    ensures
        ds@.len() == 2,
        to_others(ds@[0], m.channel@, "new-msg"@, message_json(*m)),
        to_sender(ds@[1], "new-msg"@, message_json(*m)),
{
    let payload = render_message(m);
    let mut copy: Vec<char> = Vec::new();
    copy.extend_from_slice(payload.as_slice());
    proof {
        assert(copy@ =~= payload@);
    }
    let mut ds: Vec<Directive> = Vec::new();
    ds.push(
        Directive {
            target: DeliveryTarget::Others { channel: m.channel.clone() },
            event: String::from_str("new-msg"),
            payload,
        },
    );
    ds.push(
        Directive {
            target: DeliveryTarget::Sender,
            event: String::from_str("new-msg"),
            payload: copy,
        },
    );
    ds
}

/// Handles `send-msg`: rejects an unauthenticated or unauthorized sender
/// without touching the store; otherwise persists the message — the store
/// assigns the identifier and records the given time — and returns the
/// fan-out block for it.
pub fn handle_send_msg(
    state: &ConnectionState,
    store: &mut MessageStore,
    channel: &String,
    text: &String,
    now_ms: u64,
) -> (r: Result<Vec<Directive>, Rejection>)
    requires
        old(store).upcoming_id() < u64::MAX,
    ensures
        r is Ok <==> (state matches ConnectionState::Authenticated(s) && s.authorized(channel@)),
        match r {
            Ok(ds) => {
                let m = StoredMessage {
                    id: old(store).upcoming_id(),
                    author: state->Authenticated_0.nick,
                    body: *text,
                    channel: *channel,
                    sent_at_ms: now_ms,
                };
                &&& final(store).log() == old(store).log().push(m)
                &&& ds@.len() == 2
                &&& to_others(ds@[0], channel@, "new-msg"@, message_json(m))
                &&& to_sender(ds@[1], "new-msg"@, message_json(m))
            },
            Err(e) => {
                &&& final(store).log() == old(store).log()
                &&& e.kind == RejectionKind::Auth
                &&& if state is Unauthenticated {
                    e.message@ == "You need to be logged in to send messages."@
                } else {
                    e.message@ == "You are not in this channel."@
                }
            },
        },
{
    match authorize_send(state, channel) {
        Err(e) => Err(e),
        Ok(()) => {
            let s = match state {
                ConnectionState::Authenticated(s) => s,
                ConnectionState::Unauthenticated => unreached(),
            };
            let (id, ts) = store.insert(&s.nick, text, channel, now_ms);
            let m = StoredMessage {
                id,
                author: s.nick.clone(),
                body: text.clone(),
                channel: channel.clone(),
                sent_at_ms: ts,
            };
            Ok(message_directives(&m))
        },
    }
}

/// Handles `typing`: silently ignored unless the connection holds a session
/// authorized for the channel; otherwise one fire-and-forget, unpersisted
/// event to the other members — the sender excluded.
pub fn handle_typing(state: &ConnectionState, channel: &String, status: bool) -> (r: Option<
    Directive,
>)
    ensures
        r is Some <==> (state matches ConnectionState::Authenticated(s) && s.authorized(channel@)),
        match r {
            Some(d) => to_others(
                d,
                channel@,
                "typing"@,
                typing_json(state->Authenticated_0.nick@, status, channel@),
            ),
            None => true,
        },
{
    match state {
        ConnectionState::Unauthenticated => None,
        ConnectionState::Authenticated(s) => {
            if s.is_authorized(channel) {
                Some(
                    Directive {
                        target: DeliveryTarget::Others { channel: channel.clone() },
                        event: String::from_str("typing"),
                        payload: render_typing(&s.nick, status, channel),
                    },
                )
            } else {
                None
            }
        },
    }
}

/// Handles `load-more-messages`: a rejection — user-visible, and sent before
/// any query runs — where the connection holds no session or the session's
/// recorded permission for the channel is false or absent; otherwise the
/// page older than the cursor, newest first, sent to the requester alone.
pub fn handle_load_more(
    state: &ConnectionState,
    store: &MessageStore,
    channel: &String,
    before: Option<u64>,
    limit: usize,
) -> (r: Result<Directive, Rejection>)
    requires
        state matches ConnectionState::Authenticated(s) ==> s.wf(),
    ensures
        r is Ok <==> (state matches ConnectionState::Authenticated(s) && s.can_view(channel@)),
        match r {
            Ok(d) => to_sender(
                d,
                "older-msgs"@,
                messages_json(page_spec(store.log(), channel@, before, limit as nat)),
            ),
            Err(e) => e.kind == RejectionKind::Auth && e.message@ ==
            "You need to be logged in to view previous messages."@,
        },
{
    match state {
        ConnectionState::Unauthenticated => Err(
            Rejection {
                kind: RejectionKind::Auth,
                message: String::from_str(
                    "You need to be logged in to view previous messages.",
                ),
            },
        ),
        ConnectionState::Authenticated(s) => {
            if !s.history_allowed(channel) {
                Err(
                    Rejection {
                        kind: RejectionKind::Auth,
                        message: String::from_str(
                            "You need to be logged in to view previous messages.",
                        ),
                    },
                )
            } else {
                let page = store.query(channel, before, limit);
                Ok(
                    Directive {
                        target: DeliveryTarget::Sender,
                        event: String::from_str("older-msgs"),
                        payload: render_messages(&page),
                    },
                )
            }
        },
    }
}

/// How many copies of `d` the transport hands to `user`, when `members` are
/// joined to `d`'s channel and `sender` originated the event: the multicast
/// primitive reaches every member but the sender, the direct path only the
/// sender.
pub open spec fn copies_to(
    d: Directive,
    user: Seq<char>,
    members: Set<Seq<char>>,
    sender: Seq<char>,
) -> nat {
    match d.target {
        DeliveryTarget::Sender => if user == sender {
            1nat
        } else {
            0nat
        },
        DeliveryTarget::Others { channel } => if user != sender && members.contains(user) {
            1nat
        } else {
            0nat
        },
    }
}

/// Law: a fan-out block of one channel multicast and one direct send — the
/// shape every message, join and leave announcement here uses — delivers the
/// event to every channel member exactly once, the sender included, and to
/// the sender exactly once even when the sender is not in the member set.
pub proof fn lemma_fanout_delivers_exactly_once(
    others: Directive,
    echo: Directive,
    channel: Seq<char>,
    event: Seq<char>,
    payload: Seq<char>,
    members: Set<Seq<char>>,
    sender: Seq<char>,
    user: Seq<char>,
)
    requires
        to_others(others, channel, event, payload),
        to_sender(echo, event, payload),
        members.contains(user) || user == sender,
    ensures
        copies_to(others, user, members, sender) + copies_to(echo, user, members, sender) == 1,
{
}

/// The private history delivered right after login: the newest messages of
/// the channels the session may view, or nothing where it may view none.
pub fn login_history(session: &Session, store: &MessageStore, limit: usize) -> (r: Option<
    Directive,
>)
    requires
        session.wf(),
    ensures
        r is Some <==> exists|i: int|
            0 <= i < session.view_history@.len() && session.view_history@[i],
        match r {
            Some(d) => to_sender(
                d,
                "previous-msg"@,
                messages_json(visible_page_spec(store.log(), *session, limit as nat)),
            ),
            None => true,
        },
{
    let mut any: bool = false;
    let mut i: usize = 0;
    while i < session.view_history.len()
        invariant
            0 <= i <= session.view_history@.len(),
            any == exists|j: int| 0 <= j < i && session.view_history@[j],
        decreases session.view_history@.len() - i,
    {
        if session.view_history[i] {
            any = true;
        }
        i = i + 1;
    }
    if !any {
        return None;
    }
    let page = store.query_visible(session, limit);
    Some(
        Directive {
            target: DeliveryTarget::Sender,
            event: String::from_str("previous-msg"),
            payload: render_messages(&page),
        },
    )
}

} // verus!
