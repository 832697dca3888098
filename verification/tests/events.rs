use chat_gateway::auth::{Rejection, RejectionKind};
use chat_gateway::events::{
    render_message, render_messages, render_rejection, render_start_event, render_typing,
    render_user_event,
};
use chat_gateway::history::StoredMessage;

fn s(x: &str) -> String {
    x.to_string()
}

fn text(v: &[char]) -> String {
    v.iter().collect()
}

#[test]
fn user_event_payload_is_exact() {
    let payload = text(&render_user_event(&s("alice"), &s("general")));
    assert_eq!(payload, "{\"nick\":\"alice\",\"channel\":\"general\"}");
}

#[test]
fn start_payload_lists_the_snapshot() {
    let payload = text(&render_start_event(&vec![s("alice")], &s("general")));
    assert_eq!(payload, "{\"users\":[\"alice\"],\"channel\":\"general\"}");
    let payload = text(&render_start_event(&vec![s("alice"), s("bob")], &s("x")));
    assert_eq!(payload, "{\"users\":[\"alice\",\"bob\"],\"channel\":\"x\"}");
    let payload = text(&render_start_event(&vec![], &s("x")));
    assert_eq!(payload, "{\"users\":[],\"channel\":\"x\"}");
}

#[test]
fn message_payload_is_exact() {
    let m = StoredMessage {
        id: 1,
        author: s("alice"),
        body: s("hi"),
        channel: s("general"),
        sent_at_ms: 1700000000123,
    };
    let payload = text(&render_message(&m));
    assert_eq!(
        payload,
        "{\"f\":\"alice\",\"m\":\"hi\",\"id\":1,\"time\":1700000000123,\"channel\":\"general\"}"
    );
}

#[test]
fn message_payload_parses_as_json_with_escapes_intact() {
    let m = StoredMessage {
        id: 7,
        author: s("ali\"ce"),
        body: s("line\nbreak \\ and \u{01}"),
        channel: s("general"),
        sent_at_ms: 99,
    };
    let payload = text(&render_message(&m));
    let v: serde_json::Value = serde_json::from_str(&payload).expect("payload must be valid JSON");
    assert_eq!(v["f"], "ali\"ce");
    assert_eq!(v["m"], "line\nbreak \\ and \u{01}");
    assert_eq!(v["id"], 7);
    assert_eq!(v["time"], 99);
    assert_eq!(v["channel"], "general");
}

#[test]
fn history_payload_is_a_json_array_in_page_order() {
    let one = StoredMessage {
        id: 2,
        author: s("a"),
        body: s("x"),
        channel: s("c"),
        sent_at_ms: 5,
    };
    let two = StoredMessage {
        id: 1,
        author: s("b"),
        body: s("y"),
        channel: s("c"),
        sent_at_ms: 4,
    };
    let payload = text(&render_messages(&vec![one, two]));
    let v: serde_json::Value = serde_json::from_str(&payload).unwrap();
    let items = v.as_array().unwrap();
    assert_eq!(items.len(), 2);
    assert_eq!(items[0]["id"], 2);
    assert_eq!(items[1]["id"], 1);
    assert_eq!(text(&render_messages(&vec![])), "[]");
}

#[test]
fn typing_payload_is_exact() {
    let payload = text(&render_typing(&s("alice"), true, &s("general")));
    assert_eq!(payload, "{\"status\":true,\"channel\":\"general\",\"nick\":\"alice\"}");
    let payload = text(&render_typing(&s("alice"), false, &s("general")));
    assert_eq!(payload, "{\"status\":false,\"channel\":\"general\",\"nick\":\"alice\"}");
}

#[test]
fn rejection_payload_carries_kind_and_message() {
    let payload = text(&render_rejection(&Rejection {
        kind: RejectionKind::Auth,
        message: s("Invalid credentials."),
    }));
    assert_eq!(payload, "{\"type\":\"auth\",\"message\":\"Invalid credentials.\"}");
    let payload = text(&render_rejection(&Rejection {
        kind: RejectionKind::Server,
        message: s("Server error during authentication."),
    }));
    let v: serde_json::Value = serde_json::from_str(&payload).unwrap();
    assert_eq!(v["type"], "server");
    assert_eq!(v["message"], "Server error during authentication.");
}
