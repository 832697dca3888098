//! One full session, step by step: login, first-join announcement, a message
//! with its echo, a denied history request, and the disconnect.

use chat_gateway::auth::{login_decision, validate_login, CredentialLookup, LoginOutcome,
    RejectionKind, UserRecord};
use chat_gateway::events::render_rejection;
use chat_gateway::history::MessageStore;
use chat_gateway::lifecycle::{
    handle_load_more, handle_send_msg, join_all, join_directives, leave_all, leave_directives,
    login_history, ConnectionState, DeliveryTarget, Directive,
};
use chat_gateway::presence::PresenceRegistry;
use chat_gateway::session::Session;

fn s(x: &str) -> String {
    x.to_string()
}

fn text(v: &[char]) -> String {
    v.iter().collect()
}

/// How many connections a directive reaches, given the channel members and
/// the sender's nick: the multicast primitive excludes the sender.
fn deliveries_to(directive: &Directive, members: &[String], sender: &str, me: &str) -> usize {
    match &directive.target {
        DeliveryTarget::Sender => {
            if sender == me {
                1
            } else {
                0
            }
        }
        DeliveryTarget::Others { channel: _ } => {
            if me != sender && members.iter().any(|m| m == me) {
                1
            } else {
                0
            }
        }
    }
}

#[test]
fn full_session_for_alice_and_bob() {
    let mut registry = PresenceRegistry::new();
    let mut store = MessageStore::new();

    // alice logs in with her password; the store holds her record with
    // history permission on her one channel.
    let (nick, password) = validate_login(&s("alice"), &s("hunter2")).unwrap();
    let lookup = CredentialLookup::Found(UserRecord {
        password_hash: bcrypt::hash("hunter2", 4).unwrap(),
        channels: vec![s("general")],
        view_history: vec![true],
    });
    let alice: Session = match login_decision(&nick, password.as_str(), lookup) {
        LoginOutcome::Authenticated(session) => session,
        LoginOutcome::Rejected(_) => panic!("alice's login must succeed"),
    };

    // Joining an empty channel: the snapshot lists alice alone, and exactly
    // one `ue` event is delivered system-wide — to alice herself, since the
    // channel multicast excludes her and nobody else is joined.
    let joins = join_all(&mut registry, &alice);
    let blocks = join_directives(&joins, &alice.nick);
    assert_eq!(blocks.len(), 1);
    let block = &blocks[0];
    assert_eq!(block[0].event, "start");
    assert_eq!(text(&block[0].payload), "{\"users\":[\"alice\"],\"channel\":\"general\"}");
    let members = registry.current_members(&s("general"));
    let ue_to_alice: usize = block
        .iter()
        .filter(|d| d.event == "ue")
        .map(|d| deliveries_to(d, &members, "alice", "alice"))
        .sum();
    assert_eq!(ue_to_alice, 1, "alice observes her own join exactly once");

    // Her history permission is on, so a private history page follows the
    // login; the channel is empty so far.
    let history = login_history(&alice, &store, 50).expect("permission is on for general");
    assert_eq!(history.event, "previous-msg");
    assert_eq!(text(&history.payload), "[]");

    // alice sends a message: it is persisted under identifier 1 and echoed
    // to her own connection exactly once.
    let state = ConnectionState::Authenticated(alice);
    let ds = handle_send_msg(&state, &mut store, &s("general"), &s("hi"), 1700000000123).unwrap();
    let new_msg_to_alice: usize =
        ds.iter().map(|d| deliveries_to(d, &members, "alice", "alice")).sum();
    assert_eq!(new_msg_to_alice, 1, "alice observes her own message exactly once");
    let v: serde_json::Value = serde_json::from_str(&text(&ds[1].payload)).unwrap();
    assert_eq!(v["f"], "alice");
    assert_eq!(v["m"], "hi");
    assert_eq!(v["id"], 1);

    // bob, logged in without permission for general, asks for its history:
    // a rejection classified `auth`, and no page.
    let bob = Session { nick: s("bob"), channels: vec![s("lobby")], view_history: vec![false] };
    let bob_state = ConnectionState::Authenticated(bob);
    let rejection = handle_load_more(&bob_state, &store, &s("general"), None, 50)
        .err()
        .expect("bob lacks the permission");
    assert_eq!(rejection.kind, RejectionKind::Auth);
    let payload: serde_json::Value =
        serde_json::from_str(&text(&render_rejection(&rejection))).unwrap();
    assert_eq!(payload["type"], "auth");

    // alice disconnects: one `ul` for general, and the channel is empty.
    let alice = match state {
        ConnectionState::Authenticated(session) => session,
        ConnectionState::Unauthenticated => unreachable!(),
    };
    let leaves = leave_all(&mut registry, &alice);
    assert!(leaves[0].was_member);
    let blocks = leave_directives(&leaves, &alice.nick);
    assert_eq!(blocks[0].len(), 2);
    assert_eq!(blocks[0][0].event, "ul");
    assert_eq!(text(&blocks[0][0].payload), "{\"nick\":\"alice\",\"channel\":\"general\"}");
    assert!(registry.current_members(&s("general")).is_empty());
}

#[test]
fn message_body_round_trips_through_send_and_history() {
    let mut registry = PresenceRegistry::new();
    let mut store = MessageStore::new();
    let alice = Session { nick: s("alice"), channels: vec![s("general")], view_history: vec![true] };
    join_all(&mut registry, &alice);
    let body = s("tricky \"body\" with \\ and\nnewlines and \u{01}");
    let state = ConnectionState::Authenticated(alice);
    handle_send_msg(&state, &mut store, &s("general"), &body, 42).unwrap();

    let d = handle_load_more(&state, &store, &s("general"), None, 50).unwrap();
    let v: serde_json::Value = serde_json::from_str(&text(&d.payload)).unwrap();
    let items = v.as_array().unwrap();
    assert_eq!(items.len(), 1);
    assert_eq!(items[0]["m"], body.as_str(), "the body decodes to the value submitted");
}
