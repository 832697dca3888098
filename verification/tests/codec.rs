use chat_gateway::codec::{escape_string, push_u64, unescape_chars};

fn chars(x: &str) -> Vec<char> {
    x.chars().collect()
}

fn text(v: &[char]) -> String {
    v.iter().collect()
}

#[test]
fn plain_text_escapes_to_itself() {
    assert_eq!(text(&escape_string("hi")), "hi");
    assert_eq!(text(&escape_string("héllo wörld")), "héllo wörld");
}

#[test]
fn special_characters_are_escaped() {
    assert_eq!(text(&escape_string("a\"b")), "a\\\"b");
    assert_eq!(text(&escape_string("a\\b")), "a\\\\b");
    assert_eq!(text(&escape_string("a\nb\tc\rd")), "a\\nb\\tc\\rd");
    assert_eq!(text(&escape_string("\u{01}")), "\\u0001");
    assert_eq!(text(&escape_string("\u{1f}")), "\\u001f");
}

#[test]
fn escape_then_unescape_round_trips() {
    for case in [
        "",
        "hi",
        "with \"quotes\" and \\slashes\\",
        "line\nbreaks\tand\rreturns",
        "control \u{01}\u{02}\u{1f} chars",
        "unicode: ünïcödé ✓",
    ] {
        let escaped = escape_string(case);
        let decoded = unescape_chars(&escaped).expect("decoding our own encoding");
        assert_eq!(text(&decoded), case);
    }
}

#[test]
fn unescape_rejects_what_escape_never_produces() {
    assert!(unescape_chars(&chars("\\")).is_none());
    assert!(unescape_chars(&chars("\\x")).is_none());
    assert!(unescape_chars(&chars("\\u00")).is_none());
    assert!(unescape_chars(&chars("\\u00zz")).is_none());
    assert!(unescape_chars(&chars("\\u0100")).is_none());
    assert!(unescape_chars(&chars("raw\"quote")).is_none());
    assert!(unescape_chars(&chars("raw\ncontrol")).is_none());
}

#[test]
fn unescape_decodes_each_escape() {
    assert_eq!(text(&unescape_chars(&chars("a\\\"b")).unwrap()), "a\"b");
    assert_eq!(text(&unescape_chars(&chars("a\\\\b")).unwrap()), "a\\b");
    assert_eq!(text(&unescape_chars(&chars("a\\nb")).unwrap()), "a\nb");
    assert_eq!(text(&unescape_chars(&chars("a\\rb")).unwrap()), "a\rb");
    assert_eq!(text(&unescape_chars(&chars("a\\tb")).unwrap()), "a\tb");
    assert_eq!(text(&unescape_chars(&chars("a\\u0001b")).unwrap()), "a\u{01}b");
}

#[test]
fn decimal_rendering_is_exact() {
    let mut out: Vec<char> = Vec::new();
    push_u64(&mut out, 0);
    assert_eq!(text(&out), "0");
    let mut out: Vec<char> = Vec::new();
    push_u64(&mut out, 42);
    assert_eq!(text(&out), "42");
    let mut out: Vec<char> = Vec::new();
    push_u64(&mut out, 1700000000123);
    assert_eq!(text(&out), "1700000000123");
    let mut out: Vec<char> = Vec::new();
    push_u64(&mut out, u64::MAX);
    assert_eq!(text(&out), "18446744073709551615");
}
