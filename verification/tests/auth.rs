use chat_gateway::auth::{
    login_decision, password_matches, validate_login, CredentialLookup, LoginOutcome,
    RejectionKind, UserRecord,
};
use chat_gateway::text::trim;

fn s(x: &str) -> String {
    x.to_string()
}

fn record(password: &str) -> UserRecord {
    UserRecord {
        password_hash: bcrypt::hash(password, 4).unwrap(),
        channels: vec![s("general")],
        view_history: vec![true],
    }
}

#[test]
fn trim_strips_surrounding_whitespace() {
    assert_eq!(trim("  alice\t\n"), "alice");
    assert_eq!(trim("alice"), "alice");
    assert_eq!(trim("   "), "");
    assert_eq!(trim(""), "");
    assert_eq!(trim(" a b "), "a b");
    assert_eq!(trim("\u{a0}\u{2003}alice\u{3000}"), "alice");
}

#[test]
fn empty_credentials_are_rejected_before_any_lookup() {
    for (nick, password) in [("", "pw"), ("alice", ""), ("   ", "pw"), ("alice", " \t ")] {
        let r = validate_login(&s(nick), &s(password));
        let e = r.err().expect("empty credentials must be rejected");
        assert_eq!(e.kind, RejectionKind::Login);
        assert_eq!(e.message, "Nick or password can't be empty.");
    }
}

#[test]
fn validate_login_trims_credentials() {
    let (nick, password) = validate_login(&s("  alice "), &s(" hunter2\n")).unwrap();
    assert_eq!(nick, "alice");
    assert_eq!(password, "hunter2");
}

#[test]
fn correct_password_authenticates() {
    let rec = record("hunter2");
    let o = login_decision(&s("alice"), "hunter2", CredentialLookup::Found(rec));
    match o {
        LoginOutcome::Authenticated(session) => {
            assert_eq!(session.nick, "alice");
            assert_eq!(session.channels, vec![s("general")]);
            assert_eq!(session.view_history, vec![true]);
        }
        LoginOutcome::Rejected(_) => panic!("correct password must authenticate"),
    }
}

#[test]
fn wrong_password_and_missing_user_read_identically() {
    let rec = record("hunter2");
    let wrong = match login_decision(&s("alice"), "letmein", CredentialLookup::Found(rec)) {
        LoginOutcome::Rejected(e) => e,
        LoginOutcome::Authenticated(_) => panic!("wrong password must be rejected"),
    };
    let missing = match login_decision(&s("mallory"), "letmein", CredentialLookup::Missing) {
        LoginOutcome::Rejected(e) => e,
        LoginOutcome::Authenticated(_) => panic!("unknown user must be rejected"),
    };
    assert_eq!(wrong.kind, missing.kind);
    assert_eq!(wrong.message, missing.message);
    assert_eq!(missing.message, "Invalid credentials.");
}

#[test]
fn store_failure_is_a_server_error_not_bad_credentials() {
    let o = login_decision(&s("alice"), "hunter2", CredentialLookup::StoreFailed);
    match o {
        LoginOutcome::Rejected(e) => {
            assert_eq!(e.kind, RejectionKind::Server);
            assert_eq!(e.message, "Server error during authentication.");
        }
        LoginOutcome::Authenticated(_) => panic!("a store failure must not authenticate"),
    }
}

#[test]
fn password_check_goes_through_bcrypt() {
    let hash = bcrypt::hash("hunter2", 4).unwrap();
    assert!(password_matches("hunter2", &hash));
    assert!(!password_matches("hunter3", &hash));
    assert!(!password_matches("hunter2", &s("not a bcrypt hash")));
}
