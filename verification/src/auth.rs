//! Credential verification and the login decision. Submitted credentials are
//! trimmed of surrounding whitespace; empty credentials are rejected without
//! consulting the store. A missing user and a failed password check are
//! rejected with identical wording, so the rejection reveals nothing about
//! which usernames exist. A store failure is reported as a server error,
//! never as bad credentials.

use crate::session::Session;
use crate::text::{trim, trimmed};
use vstd::prelude::*;

verus! {

/// The error type of the bcrypt crate, opaque here.
#[verifier::external_type_specification]
#[verifier::external_body]
pub struct ExBcryptError(bcrypt::BcryptError);

/// Whether, per bcrypt, `password` matches the salted hash `hash`: the value
/// `bcrypt::verify` returns when it returns one. The hash string carries its
/// own salt and cost, so this depends on the two arguments alone.
pub uninterp spec fn bcrypt_matches(password: Seq<char>, hash: Seq<char>) -> bool;

/// Whether `hash` parses as a bcrypt hash (60 ASCII bytes: prefix, two-digit
/// cost in range, salt and digest in bcrypt's base64): exactly the hashes on
/// which `bcrypt::verify` returns a value rather than an error. A function of
/// the hash alone.
pub uninterp spec fn bcrypt_hash_wf(hash: Seq<char>) -> bool;

/// Relies on bcrypt::verify: it errs exactly when `hash` does not parse as a
/// bcrypt hash; otherwise it extracts salt and cost from `hash`, recomputes
/// the hash of `password` and compares in constant time, so the outcome is a
/// function of the two arguments.
#[verifier::external_body]
fn bcrypt_verify(password: &str, hash: &str) -> (r: Result<bool, bcrypt::BcryptError>)
    ensures
        r is Ok <==> bcrypt_hash_wf(hash@),
        r is Ok ==> r->Ok_0 == bcrypt_matches(password@, hash@),
{
    bcrypt::verify(password, hash)
}

/// Whether `password` passes the constant-time check against `hash`. A
/// verifier failure (an unparseable hash) is deliberately reported as a
/// mismatch, exactly as a wrong password is.
pub fn password_matches(password: &str, hash: &String) -> (r: bool)
    ensures
        r == (bcrypt_hash_wf(hash@) && bcrypt_matches(password@, hash@)),
{
    match bcrypt_verify(password, hash.as_str()) {
        Ok(b) => b,
        Err(_) => false,
    }
}

/// The classification a rejection event carries on the wire.
#[derive(Clone, Copy, Debug, PartialEq, Eq, Structural)]
pub enum RejectionKind {
    /// A login attempt was rejected: empty or invalid credentials.
    Login,
    /// An action needs an authenticated session or a permission it lacks.
    Auth,
    /// The server failed; no detail is leaked to the user.
    Server,
}

/// A rejection event's payload: a classification and a human-readable
/// message.
#[derive(Debug)]
pub struct Rejection {
    /// The classification.
    pub kind: RejectionKind,
    /// The message shown to the user.
    pub message: String,
}

/// What the store answered to a credential lookup.
pub enum CredentialLookup {
    /// The username exists: its stored record.
    Found(UserRecord),
    /// No such username.
    Missing,
    /// The store failed; nothing is known about the username.
    StoreFailed,
}

/// A user's stored account record.
pub struct UserRecord {
    /// The bcrypt hash of the account's password.
    pub password_hash: String,
    /// The channels the account belongs to.
    pub channels: Vec<String>,
    /// Per channel, whether history viewing is allowed; paired with
    /// `channels` by position.
    pub view_history: Vec<bool>,
}

impl UserRecord {
    /// The channel and flag lists pair up, and each channel the account
    /// belongs to is listed once.
    pub open spec fn wf(self) -> bool {
        &&& self.channels@.len() == self.view_history@.len()
        &&& crate::presence::names_of(self.channels@).no_duplicates()
    }
}

/// How a login attempt ends.
pub enum LoginOutcome {
    /// The session to bind to the connection.
    Authenticated(Session),
    /// The rejection event to send; the connection stays unauthenticated.
    Rejected(Rejection),
}

/// Trims the submitted credentials and rejects empty ones before any store
/// lookup. Returns the trimmed nick and password to look up and check.
pub fn validate_login(nick: &String, password: &String) -> (r: Result<(String, String), Rejection>)
    ensures
        r is Ok <==> trimmed(nick@).len() > 0 && trimmed(password@).len() > 0,
        match r {
            Ok(p) => p.0@ == trimmed(nick@) && p.1@ == trimmed(password@),
            Err(e) => e.kind == RejectionKind::Login && e.message@ ==
            "Nick or password can't be empty."@,
        },
{
    let n = trim(nick.as_str());
    let p = trim(password.as_str());
    if n.unicode_len() == 0 || p.unicode_len() == 0 {
        Err(
            Rejection {
                kind: RejectionKind::Login,
                message: String::from_str("Nick or password can't be empty."),
            },
        )
    } else {
        Ok((String::from_str(n), String::from_str(p)))
    }
}

/// Decides a login from the store's answer and the password check:
/// authenticated exactly when the user was found and the password passed.
/// A missing user and a failed check get rejections with identical kind and
/// wording; a store failure is a server error and never reads as bad
/// credentials.
pub fn resolve_login(nick: &String, password_ok: bool, lookup: CredentialLookup) -> (o:
    LoginOutcome)
    requires
        lookup matches CredentialLookup::Found(rec) ==> rec.wf(),
    ensures
        (o is Authenticated) <==> (lookup is Found && password_ok),
        match o {
            LoginOutcome::Authenticated(s) => {
                &&& s.wf()
                &&& s.nick@ == nick@
                &&& s.channels@ == lookup->Found_0.channels@
                &&& s.view_history@ == lookup->Found_0.view_history@
            },
            LoginOutcome::Rejected(e) => {
                if lookup is StoreFailed {
                    e.kind == RejectionKind::Server && e.message@ ==
                    "Server error during authentication."@
                } else {
                    e.kind == RejectionKind::Login && e.message@ == "Invalid credentials."@
                }
            },
        },
{
    match lookup {
        CredentialLookup::StoreFailed => LoginOutcome::Rejected(
            Rejection {
                kind: RejectionKind::Server,
                message: String::from_str("Server error during authentication."),
            },
        ),
        CredentialLookup::Missing => LoginOutcome::Rejected(
            Rejection {
                kind: RejectionKind::Login,
                message: String::from_str("Invalid credentials."),
            },
        ),
        CredentialLookup::Found(rec) => {
            if password_ok {
                LoginOutcome::Authenticated(
                    Session {
                        nick: nick.clone(),
                        channels: rec.channels,
                        view_history: rec.view_history,
                    },
                )
            } else {
                LoginOutcome::Rejected(
                    Rejection {
                        kind: RejectionKind::Login,
                        message: String::from_str("Invalid credentials."),
                    },
                )
            }
        },
    }
}

/// Decides a login from the store's answer alone, running the password check
/// against the found record's hash: authenticated exactly when the user was
/// found, the stored hash parses, and the password matches it. A wrong
/// password, a missing user, and an unparseable stored hash reject with one
/// identical wording.
pub fn login_decision(nick: &String, password: &str, lookup: CredentialLookup) -> (o: LoginOutcome)
    requires
        lookup matches CredentialLookup::Found(rec) ==> rec.wf(),
    ensures
        (o is Authenticated) <==> (lookup matches CredentialLookup::Found(rec) && bcrypt_hash_wf(
            rec.password_hash@,
        ) && bcrypt_matches(password@, rec.password_hash@)),
        match o {
            LoginOutcome::Authenticated(s) => {
                &&& s.wf()
                &&& s.nick@ == nick@
                &&& s.channels@ == lookup->Found_0.channels@
                &&& s.view_history@ == lookup->Found_0.view_history@
            },
            LoginOutcome::Rejected(e) => {
                if lookup is StoreFailed {
                    e.kind == RejectionKind::Server && e.message@ ==
                    "Server error during authentication."@
                } else {
                    e.kind == RejectionKind::Login && e.message@ == "Invalid credentials."@
                }
            },
        },
{
    let password_ok = match &lookup {
        CredentialLookup::Found(rec) => password_matches(password, &rec.password_hash),
        _ => false,
    };
    resolve_login(nick, password_ok, lookup)
}

} // verus!
