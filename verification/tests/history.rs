use chat_gateway::history::{load_history, page_messages, HistoryError, MessageStore, StoredMessage};
use chat_gateway::session::Session;

fn s(x: &str) -> String {
    x.to_string()
}

fn msg(id: u64, channel: &str, body: &str) -> StoredMessage {
    StoredMessage {
        id,
        author: s("alice"),
        body: s(body),
        channel: s(channel),
        sent_at_ms: 1000 + id,
    }
}

fn ids(page: &[StoredMessage]) -> Vec<u64> {
    page.iter().map(|m| m.id).collect()
}

#[test]
fn page_is_newest_first_and_bounded() {
    let log = vec![
        msg(1, "general", "a"),
        msg(2, "lobby", "b"),
        msg(3, "general", "c"),
        msg(4, "general", "d"),
        msg(5, "general", "e"),
    ];
    let page = page_messages(&log, &s("general"), None, 3);
    assert_eq!(ids(&page), vec![5, 4, 3]);
}

#[test]
fn cursor_is_exclusive() {
    let log = vec![
        msg(1, "general", "a"),
        msg(2, "general", "b"),
        msg(3, "general", "c"),
        msg(4, "general", "d"),
    ];
    let page = page_messages(&log, &s("general"), Some(3), 10);
    assert_eq!(ids(&page), vec![2, 1]);
    let empty = page_messages(&log, &s("general"), Some(1), 10);
    assert!(empty.is_empty());
}

#[test]
fn page_filters_by_channel() {
    let log = vec![msg(1, "general", "a"), msg(2, "lobby", "b"), msg(3, "lobby", "c")];
    let page = page_messages(&log, &s("lobby"), None, 10);
    assert_eq!(ids(&page), vec![3, 2]);
    assert!(page_messages(&log, &s("nowhere"), None, 10).is_empty());
}

#[test]
fn repeated_identical_requests_return_the_same_page() {
    let log = vec![
        msg(1, "general", "a"),
        msg(2, "general", "b"),
        msg(3, "general", "c"),
    ];
    let first = page_messages(&log, &s("general"), Some(3), 2);
    let second = page_messages(&log, &s("general"), Some(3), 2);
    assert_eq!(ids(&first), ids(&second));
    let bodies1: Vec<&str> = first.iter().map(|m| m.body.as_str()).collect();
    let bodies2: Vec<&str> = second.iter().map(|m| m.body.as_str()).collect();
    assert_eq!(bodies1, bodies2);
}

#[test]
fn store_assigns_increasing_ids_from_one() {
    let mut store = MessageStore::new();
    let (id1, ts1) = store.insert(&s("alice"), &s("hi"), &s("general"), 500);
    let (id2, _) = store.insert(&s("bob"), &s("yo"), &s("general"), 600);
    let (id3, _) = store.insert(&s("alice"), &s("ok"), &s("lobby"), 700);
    assert_eq!((id1, ts1), (1, 500));
    assert_eq!(id2, 2);
    assert_eq!(id3, 3);
    let page = store.query(&s("general"), None, 10);
    assert_eq!(ids(&page), vec![2, 1]);
}

#[test]
fn denied_history_request_is_forbidden_without_a_query() {
    let mut store = MessageStore::new();
    store.insert(&s("alice"), &s("hi"), &s("general"), 500);
    let no_permission = Session {
        nick: s("bob"),
        channels: vec![s("general")],
        view_history: vec![false],
    };
    let r = load_history(&no_permission, &store, &s("general"), None, 10);
    assert!(matches!(r, Err(HistoryError::Forbidden)));
    let stranger = Session { nick: s("eve"), channels: vec![], view_history: vec![] };
    let r = load_history(&stranger, &store, &s("general"), None, 10);
    assert!(matches!(r, Err(HistoryError::Forbidden)));
}

#[test]
fn allowed_history_request_returns_the_page() {
    let mut store = MessageStore::new();
    store.insert(&s("alice"), &s("hi"), &s("general"), 500);
    store.insert(&s("alice"), &s("again"), &s("general"), 600);
    let session = Session {
        nick: s("alice"),
        channels: vec![s("general")],
        view_history: vec![true],
    };
    let page = load_history(&session, &store, &s("general"), None, 10).unwrap();
    assert_eq!(ids(&page), vec![2, 1]);
    assert_eq!(page[0].body, "again");
    assert_eq!(page[1].body, "hi");
}
