use chat_gateway::auth::RejectionKind;
use chat_gateway::history::MessageStore;
use chat_gateway::lifecycle::{
    authorize_send, handle_load_more, handle_send_msg, handle_typing, join_all, join_directives,
    leave_all, leave_directives, ConnectionState, DeliveryTarget,
};
use chat_gateway::presence::PresenceRegistry;
use chat_gateway::session::Session;

fn s(x: &str) -> String {
    x.to_string()
}

fn text(v: &[char]) -> String {
    v.iter().collect()
}

fn session(nick: &str, channels: &[(&str, bool)]) -> Session {
    Session {
        nick: s(nick),
        channels: channels.iter().map(|(c, _)| s(c)).collect(),
        view_history: channels.iter().map(|(_, v)| *v).collect(),
    }
}

#[test]
fn join_all_joins_every_channel_once() {
    let mut registry = PresenceRegistry::new();
    let alice = session("alice", &[("general", true), ("lobby", false)]);
    let joins = join_all(&mut registry, &alice);
    assert_eq!(joins.len(), 2);
    assert!(joins[0].was_new);
    assert!(joins[1].was_new);
    assert_eq!(registry.current_members(&s("general")), vec![s("alice")]);
    assert_eq!(registry.current_members(&s("lobby")), vec![s("alice")]);
    let joins = join_all(&mut registry, &alice);
    assert!(!joins[0].was_new, "a second connection's join must not report a new member");
    assert!(!joins[1].was_new);
}

#[test]
fn join_blocks_announce_only_new_joins() {
    let mut registry = PresenceRegistry::new();
    registry.join(&s("general"), &s("bob"));
    let alice = session("alice", &[("general", true)]);
    let joins = join_all(&mut registry, &alice);
    let blocks = join_directives(&joins, &alice.nick);
    assert_eq!(blocks.len(), 1);
    assert_eq!(blocks[0].len(), 3);
    assert_eq!(blocks[0][0].event, "start");
    assert!(matches!(blocks[0][0].target, DeliveryTarget::Sender));
    assert_eq!(blocks[0][1].event, "ue");
    assert!(matches!(&blocks[0][1].target, DeliveryTarget::Others { channel } if channel == "general"));
    assert_eq!(blocks[0][2].event, "ue");
    assert!(matches!(blocks[0][2].target, DeliveryTarget::Sender));

    let carol = session("bob", &[("general", true)]);
    let joins = join_all(&mut registry, &carol);
    let blocks = join_directives(&joins, &carol.nick);
    assert_eq!(blocks[0].len(), 1, "a rejoin announces nothing, only the snapshot");
    assert_eq!(blocks[0][0].event, "start");
}

#[test]
fn unauthenticated_send_is_rejected_with_login_message() {
    let r = authorize_send(&ConnectionState::Unauthenticated, &s("general"));
    let e = r.err().unwrap();
    assert_eq!(e.kind, RejectionKind::Auth);
    assert_eq!(e.message, "You need to be logged in to send messages.");
}

#[test]
fn send_to_unauthorized_channel_is_rejected_and_not_stored() {
    let mut store = MessageStore::new();
    let state = ConnectionState::Authenticated(session("alice", &[("general", true)]));
    let r = handle_send_msg(&state, &mut store, &s("lobby"), &s("hi"), 7);
    let e = r.err().unwrap();
    assert_eq!(e.kind, RejectionKind::Auth);
    assert!(store.query(&s("lobby"), None, 10).is_empty());
}

#[test]
fn send_persists_and_fans_out_with_echo() {
    let mut store = MessageStore::new();
    let state = ConnectionState::Authenticated(session("alice", &[("general", true)]));
    let ds = handle_send_msg(&state, &mut store, &s("general"), &s("hi"), 7).unwrap();
    assert_eq!(ds.len(), 2);
    assert!(matches!(&ds[0].target, DeliveryTarget::Others { channel } if channel == "general"));
    assert!(matches!(ds[1].target, DeliveryTarget::Sender));
    assert_eq!(ds[0].event, "new-msg");
    assert_eq!(ds[1].event, "new-msg");
    assert_eq!(text(&ds[0].payload), text(&ds[1].payload));
    let page = store.query(&s("general"), None, 10);
    assert_eq!(page.len(), 1);
    assert_eq!(page[0].id, 1);
    assert_eq!(page[0].body, "hi");
}

#[test]
fn typing_goes_to_others_only_when_authorized() {
    let state = ConnectionState::Authenticated(session("alice", &[("general", true)]));
    let d = handle_typing(&state, &s("general"), true).unwrap();
    assert!(matches!(&d.target, DeliveryTarget::Others { channel } if channel == "general"));
    assert_eq!(d.event, "typing");
    assert_eq!(
        text(&d.payload),
        "{\"status\":true,\"channel\":\"general\",\"nick\":\"alice\"}"
    );
    assert!(handle_typing(&state, &s("lobby"), true).is_none());
    assert!(handle_typing(&ConnectionState::Unauthenticated, &s("general"), true).is_none());
}

#[test]
fn load_more_without_a_session_is_rejected_visibly() {
    let store = MessageStore::new();
    let r = handle_load_more(&ConnectionState::Unauthenticated, &store, &s("general"), None, 10);
    let e = r.err().expect("missing auth must be a user-visible rejection");
    assert_eq!(e.kind, RejectionKind::Auth);
    assert_eq!(e.message, "You need to be logged in to view previous messages.");
}

#[test]
fn load_more_pages_strictly_older_than_the_cursor() {
    let mut store = MessageStore::new();
    for i in 0..5 {
        store.insert(&s("alice"), &format!("m{}", i), &s("general"), 100 + i);
    }
    let state = ConnectionState::Authenticated(session("alice", &[("general", true)]));
    let d = handle_load_more(&state, &store, &s("general"), Some(4), 2).unwrap();
    assert_eq!(d.event, "older-msgs");
    let v: serde_json::Value = serde_json::from_str(&text(&d.payload)).unwrap();
    let items = v.as_array().unwrap();
    assert_eq!(items.len(), 2);
    assert_eq!(items[0]["id"], 3);
    assert_eq!(items[1]["id"], 2);
}

#[test]
fn presence_outlives_all_but_the_last_connection() {
    let mut registry = PresenceRegistry::new();
    let alice = session("alice", &[("general", true)]);
    join_all(&mut registry, &alice);
    join_all(&mut registry, &alice);
    let first = leave_all(&mut registry, &alice);
    assert!(
        !first[0].was_member,
        "a leave must not end a membership another live connection holds"
    );
    assert_eq!(registry.current_members(&s("general")), vec![s("alice")]);
    let second = leave_all(&mut registry, &alice);
    assert!(second[0].was_member, "the last connection's leave ends the membership");
    assert!(registry.current_members(&s("general")).is_empty());
}

#[test]
fn disconnect_leaves_every_channel_and_announces_once() {
    let mut registry = PresenceRegistry::new();
    let alice = session("alice", &[("general", true), ("lobby", false)]);
    join_all(&mut registry, &alice);
    let leaves = leave_all(&mut registry, &alice);
    assert_eq!(leaves.len(), 2);
    assert!(leaves[0].was_member);
    assert!(leaves[1].was_member);
    assert!(registry.current_members(&s("general")).is_empty());
    assert!(registry.current_members(&s("lobby")).is_empty());
    let blocks = leave_directives(&leaves, &alice.nick);
    assert_eq!(blocks[0].len(), 2);
    assert_eq!(blocks[0][0].event, "ul");

    let again = leave_all(&mut registry, &alice);
    assert!(!again[0].was_member, "a second disconnect must find no membership");
    assert!(!again[1].was_member);
    let blocks = leave_directives(&again, &alice.nick);
    assert!(blocks[0].is_empty());
    assert!(blocks[1].is_empty());
}

#[test]
fn login_history_is_skipped_without_any_permission() {
    let mut store = MessageStore::new();
    store.insert(&s("alice"), &s("hi"), &s("general"), 7);
    let none = session("bob", &[("general", false), ("lobby", false)]);
    assert!(chat_gateway::lifecycle::login_history(&none, &store, 50).is_none());
    let some = session("carol", &[("general", false), ("lobby", true)]);
    let d = chat_gateway::lifecycle::login_history(&some, &store, 50).unwrap();
    assert_eq!(d.event, "previous-msg");
    assert_eq!(text(&d.payload), "[]", "general is filtered out of carol's history");
}
