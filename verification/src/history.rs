//! Message history: the append-only message log with its strictly increasing
//! identifiers, and cursor-based pagination over it — a page is the newest
//! `limit` messages of a channel, optionally strictly older than a cursor,
//! newest first. Reading history is gated by the permission recorded in the
//! session: a denied request is answered without running any query.

use crate::session::Session;
use vstd::prelude::*;

verus! {

/// One stored message. Immutable once created; the identifier ordering is
/// the canonical ordering for pagination and tie-breaking.
pub struct StoredMessage {
    /// Store-assigned identifier, strictly increasing across inserts.
    pub id: u64,
    /// The author's username.
    pub author: String,
    /// The message body as submitted.
    pub body: String,
    /// The channel the message was sent to.
    pub channel: String,
    /// Creation time, milliseconds since the epoch.
    pub sent_at_ms: u64,
}

impl StoredMessage {
    /// A copy of this message, field for field.
    pub fn duplicate(&self) -> (r: StoredMessage)
        ensures
            r == *self,
    {
        StoredMessage {
            id: self.id,
            author: self.author.clone(),
            body: self.body.clone(),
            channel: self.channel.clone(),
            sent_at_ms: self.sent_at_ms,
        }
    }
}

/// Whether `m` belongs on a page for `channel` with cursor `before`: right
/// channel, and strictly older than the cursor where one is given.
pub open spec fn eligible(m: StoredMessage, channel: Seq<char>, before: Option<u64>) -> bool {
    m.channel@ == channel && match before {
        Some(b) => m.id < b,
        None => true,
    }
}

/// The page for `(channel, before, limit)` over the log `msgs`: scanning
/// from the newest message down, the first `limit` eligible ones, newest
/// first.
pub open spec fn page_spec(
    msgs: Seq<StoredMessage>,
    channel: Seq<char>,
    before: Option<u64>,
    limit: nat,
) -> Seq<StoredMessage>
    decreases msgs.len(),
{
    if limit == 0 || msgs.len() == 0 {
        Seq::<StoredMessage>::empty()
    } else if eligible(msgs.last(), channel, before) {
        seq![msgs.last()] + page_spec(msgs.drop_last(), channel, before, (limit - 1) as nat)
    } else {
        page_spec(msgs.drop_last(), channel, before, limit)
    }
}

/// A page never exceeds the requested size, and holds eligible messages
/// only.
pub proof fn lemma_page_bounded(
    msgs: Seq<StoredMessage>,
    channel: Seq<char>,
    before: Option<u64>,
    limit: nat,
)
    ensures
        page_spec(msgs, channel, before, limit).len() <= limit,
        forall|i: int|
            0 <= i < page_spec(msgs, channel, before, limit).len() ==> eligible(
                #[trigger] page_spec(msgs, channel, before, limit)[i],
                channel,
                before,
            ),
    decreases msgs.len(),
{
    if limit == 0 || msgs.len() == 0 {
    } else if eligible(msgs.last(), channel, before) {
        lemma_page_bounded(msgs.drop_last(), channel, before, (limit - 1) as nat);
    } else {
        lemma_page_bounded(msgs.drop_last(), channel, before, limit);
    }
}

/// Whether identifiers increase strictly along `s` (oldest first).
pub open spec fn ids_increasing(s: Seq<StoredMessage>) -> bool {
    forall|i: int, j: int| 0 <= i < j < s.len() ==> s[i].id < s[j].id
}

/// A bound on every identifier in the log bounds every identifier on a page.
proof fn lemma_page_id_bound(
    msgs: Seq<StoredMessage>,
    channel: Seq<char>,
    before: Option<u64>,
    limit: nat,
    b: u64,
)
    requires
        forall|i: int| 0 <= i < msgs.len() ==> msgs[i].id < b,
    ensures
        forall|i: int|
            0 <= i < page_spec(msgs, channel, before, limit).len() ==> #[trigger] page_spec(
                msgs,
                channel,
                before,
                limit,
            )[i].id < b,
    decreases msgs.len(),
{
    let p = page_spec(msgs, channel, before, limit);
    if limit == 0 || msgs.len() == 0 {
        assert(p == Seq::<StoredMessage>::empty());
    } else {
        let rest = msgs.drop_last();
        assert forall|x: int| 0 <= x < rest.len() implies rest[x].id < b by {
            assert(rest[x] == msgs[x]);
        }
        if eligible(msgs.last(), channel, before) {
            lemma_page_id_bound(rest, channel, before, (limit - 1) as nat, b);
            let q = page_spec(rest, channel, before, (limit - 1) as nat);
            assert(p == seq![msgs.last()] + q);
            assert forall|i: int| 0 <= i < p.len() implies p[i].id < b by {
                if i > 0 {
                    assert(p[i] == q[i - 1]);
                }
            }
        } else {
            lemma_page_id_bound(rest, channel, before, limit, b);
            assert(p == page_spec(rest, channel, before, limit));
        }
    }
}

/// Over a log with strictly increasing identifiers, a page is ordered
/// newest first: identifiers decrease strictly along it.
pub proof fn lemma_page_newest_first(
    msgs: Seq<StoredMessage>,
    channel: Seq<char>,
    before: Option<u64>,
    limit: nat,
)
    requires
        ids_increasing(msgs),
    ensures
        forall|i: int, j: int|
            0 <= i < j < page_spec(msgs, channel, before, limit).len() ==> page_spec(
                msgs,
                channel,
                before,
                limit,
            )[i].id > page_spec(msgs, channel, before, limit)[j].id,
    decreases msgs.len(),
{
    let p = page_spec(msgs, channel, before, limit);
    if limit == 0 || msgs.len() == 0 {
        assert(p == Seq::<StoredMessage>::empty());
    } else {
        let rest = msgs.drop_last();
        assert forall|x: int, y: int| 0 <= x < y < rest.len() implies rest[x].id < rest[y].id by {
            assert(rest[x] == msgs[x] && rest[y] == msgs[y]);
        }
        assert forall|x: int| 0 <= x < rest.len() implies rest[x].id < msgs.last().id by {
            assert(rest[x] == msgs[x]);
        }
        if eligible(msgs.last(), channel, before) {
            lemma_page_newest_first(rest, channel, before, (limit - 1) as nat);
            lemma_page_id_bound(rest, channel, before, (limit - 1) as nat, msgs.last().id);
            let q = page_spec(rest, channel, before, (limit - 1) as nat);
            assert(p == seq![msgs.last()] + q);
            assert forall|i: int, j: int| 0 <= i < j < p.len() implies p[i].id > p[j].id by {
                assert(p[j] == q[j - 1]);
                if i > 0 {
                    assert(p[i] == q[i - 1]);
                }
            }
        } else {
            lemma_page_newest_first(rest, channel, before, limit);
            assert(p == page_spec(rest, channel, before, limit));
        }
    }
}

/// The page, characterized without the scan: a page is the eligible part of
/// the log, reversed to newest-first order, cut to the requested size.
pub proof fn lemma_page_is_newest_eligible(
    msgs: Seq<StoredMessage>,
    channel: Seq<char>,
    before: Option<u64>,
    limit: nat,
)
    ensures
        ({
            let el = msgs.filter(|m: StoredMessage| eligible(m, channel, before)).reverse();
            page_spec(msgs, channel, before, limit) == el.take(
                if limit <= el.len() {
                    limit as int
                } else {
                    el.len() as int
                },
            )
        }),
    decreases msgs.len(),
{
    reveal(Seq::filter);
    let pred = |m: StoredMessage| eligible(m, channel, before);
    let p = page_spec(msgs, channel, before, limit);
    let f = msgs.filter(pred);
    let el = f.reverse();
    let cut = if limit <= el.len() {
        limit as int
    } else {
        el.len() as int
    };
    if msgs.len() == 0 {
        assert(p == Seq::<StoredMessage>::empty());
        assert(el.take(cut) =~= Seq::<StoredMessage>::empty());
    } else if limit == 0 {
        assert(p == Seq::<StoredMessage>::empty());
        assert(el.take(0) =~= Seq::<StoredMessage>::empty());
    } else {
        let rest = msgs.drop_last();
        lemma_page_is_newest_eligible(rest, channel, before, (limit - 1) as nat);
        lemma_page_is_newest_eligible(rest, channel, before, limit);
        let fr = rest.filter(pred);
        let elr = fr.reverse();
        assert(pred(msgs.last()) == eligible(msgs.last(), channel, before));
        assert(f == if pred(msgs.last()) {
            fr.push(msgs.last())
        } else {
            fr
        });
        if eligible(msgs.last(), channel, before) {
            assert(f == fr.push(msgs.last()));
            assert(el =~= seq![msgs.last()] + elr);
            let q = page_spec(rest, channel, before, (limit - 1) as nat);
            assert(p == seq![msgs.last()] + q);
            let cutr = if limit - 1 <= elr.len() {
                limit - 1
            } else {
                elr.len() as int
            };
            assert(q == elr.take(cutr));
            assert(cut == cutr + 1);
            assert(el.take(cut) =~= seq![msgs.last()] + elr.take(cutr));
        } else {
            assert(f == fr);
            assert(p == page_spec(rest, channel, before, limit));
        }
    }
}

/// Law: pagination is a function of the log and the request alone — two
/// pages computed for the same `(channel, before, limit)` request over the
/// same log, as `page_messages` returns them, are equal. Repeating a request
/// gives the same page unless the log changed in between.
pub proof fn lemma_page_idempotent(
    r1: Seq<StoredMessage>,
    r2: Seq<StoredMessage>,
    msgs: Seq<StoredMessage>,
    channel: Seq<char>,
    before: Option<u64>,
    limit: nat,
)
    requires
        r1 == page_spec(msgs, channel, before, limit),
        r2 == page_spec(msgs, channel, before, limit),
    ensures
        r1 == r2,
{
}

/// Whether `m` belongs on a page for `channel` before `before`.
fn is_eligible(m: &StoredMessage, channel: &String, before: Option<u64>) -> (r: bool)
    ensures
        r == eligible(*m, channel@, before),
{
    m.channel.eq(channel) && match before {
        Some(b) => m.id < b,
        None => true,
    }
}

/// The page for `(channel, before, limit)` over the log `msgs`, newest
/// first: the query the history service runs once a request is authorized.
pub fn page_messages(
    msgs: &Vec<StoredMessage>,
    channel: &String,
    before: Option<u64>,
    limit: usize,
) -> (r: Vec<StoredMessage>)
    ensures
        r@ == page_spec(msgs@, channel@, before, limit as nat),
{
    let mut r: Vec<StoredMessage> = Vec::new();
    let mut i: usize = msgs.len();
    proof {
        assert(msgs@.subrange(0, msgs@.len() as int) =~= msgs@);
    }
    while i > 0 && r.len() < limit
        invariant
            0 <= i <= msgs@.len(),
            r@.len() <= limit,
            page_spec(msgs@, channel@, before, limit as nat) == r@ + page_spec(
                msgs@.subrange(0, i as int),
                channel@,
                before,
                (limit - r@.len()) as nat,
            ),
        decreases i,
    {
        i = i - 1;
        let ghost part = msgs@.subrange(0, i + 1);
        proof {
            assert(part.last() == msgs@[i as int]);
            assert(part.drop_last() =~= msgs@.subrange(0, i as int));
        }
        let m = &msgs[i];
        if is_eligible(m, channel, before) {
            let ghost tail = page_spec(
                msgs@.subrange(0, i as int),
                channel@,
                before,
                (limit - r@.len() - 1) as nat,
            );
            proof {
                assert(page_spec(part, channel@, before, (limit - r@.len()) as nat) == seq![
                    msgs@[i as int],
                ] + tail);
                assert(r@ + (seq![msgs@[i as int]] + tail) =~= r@.push(msgs@[i as int]) + tail);
            }
            r.push(m.duplicate());
        }
    }
    proof {
        if r@.len() == limit {
            assert(page_spec(
                msgs@.subrange(0, i as int),
                channel@,
                before,
                (limit - r@.len()) as nat,
            ) == Seq::<StoredMessage>::empty());
        } else {
            assert(msgs@.subrange(0, 0) =~= Seq::<StoredMessage>::empty());
        }
        assert(r@ + Seq::<StoredMessage>::empty() =~= r@);
    }
    r
}

/// The append-only message log: the single in-process authority over message
/// identifiers. Identifiers are strictly increasing and never reused.
pub struct MessageStore {
    msgs: Vec<StoredMessage>,
    next_id: u64,
}

impl MessageStore {
    /// Identifiers increase strictly along the log and stay below the next
    /// one to be assigned.
    #[verifier::type_invariant]
    spec fn ids_fresh(self) -> bool {
        &&& ids_increasing(self.msgs@)
        &&& forall|i: int| 0 <= i < self.msgs@.len() ==> self.msgs@[i].id < self.next_id
        &&& self.next_id >= 1
    }

    /// The stored messages, oldest first.
    pub closed spec fn log(self) -> Seq<StoredMessage> {
        self.msgs@
    }

    /// The identifier the next insert will assign.
    pub closed spec fn upcoming_id(self) -> u64 {
        self.next_id
    }

    /// An empty store; the first message gets identifier 1.
    pub fn new() -> (r: MessageStore)
        ensures
            r.log() == Seq::<StoredMessage>::empty(),
            r.upcoming_id() == 1,
    {
        let r = MessageStore { msgs: Vec::new(), next_id: 1 };
        proof {
            assert(r.log() =~= Seq::<StoredMessage>::empty());
        }
        r
    }

    /// Appends a message and assigns it the next identifier; returns the
    /// identifier and the creation time recorded, as the store capability
    /// reports them. Identifiers are never reused: the new one is above
    /// every identifier in the log.
    pub fn insert(
        &mut self,
        author: &String,
        body: &String,
        channel: &String,
        sent_at_ms: u64,
    ) -> (r: (u64, u64))
        requires
            old(self).upcoming_id() < u64::MAX,
        ensures
            r.0 == old(self).upcoming_id(),
            r.1 == sent_at_ms,
            final(self).log() == old(self).log().push(
                StoredMessage {
                    id: r.0,
                    author: *author,
                    body: *body,
                    channel: *channel,
                    sent_at_ms,
                },
            ),
            final(self).upcoming_id() == r.0 + 1,
            forall|i: int| 0 <= i < old(self).log().len() ==> old(self).log()[i].id < r.0,
            ids_increasing(final(self).log()),
    {
        proof {
            use_type_invariant(&*self);
        }
        let id = self.next_id;
        let m = StoredMessage {
            id,
            author: author.clone(),
            body: body.clone(),
            channel: channel.clone(),
            sent_at_ms,
        };
        let mut msgs: Vec<StoredMessage> = Vec::new();
        core::mem::swap(&mut self.msgs, &mut msgs);
        self.next_id = id + 1;
        msgs.push(m);
        core::mem::swap(&mut self.msgs, &mut msgs);
        (id, sent_at_ms)
    }

    /// The page for an authorized `(channel, before, limit)` request, newest
    /// first.
    pub fn query(&self, channel: &String, before: Option<u64>, limit: usize) -> (r: Vec<
        StoredMessage,
    >)
        ensures
            r@ == page_spec(self.log(), channel@, before, limit as nat),
    {
        page_messages(&self.msgs, channel, before, limit)
    }

    /// The login-history page for `session`, newest first.
    pub fn query_visible(&self, session: &Session, limit: usize) -> (r: Vec<StoredMessage>)
        requires
            session.wf(),
        ensures
            r@ == visible_page_spec(self.log(), *session, limit as nat),
    {
        visible_page(&self.msgs, session, limit)
    }
}

/// Whether `m` may appear in `s`'s login history: the permission recorded
/// for `m`'s channel.
pub open spec fn visible(m: StoredMessage, s: Session) -> bool {
    s.can_view(m.channel@)
}

/// The login-history page for session `s` over the log `msgs`: scanning from
/// the newest message down, the first `limit` ones whose channel the session
/// may view, newest first.
pub open spec fn visible_page_spec(msgs: Seq<StoredMessage>, s: Session, limit: nat) -> Seq<
    StoredMessage,
>
    decreases msgs.len(),
{
    if limit == 0 || msgs.len() == 0 {
        Seq::<StoredMessage>::empty()
    } else if visible(msgs.last(), s) {
        seq![msgs.last()] + visible_page_spec(msgs.drop_last(), s, (limit - 1) as nat)
    } else {
        visible_page_spec(msgs.drop_last(), s, limit)
    }
}

/// The login-history page for session `s` over the log `msgs`, newest first.
pub fn visible_page(msgs: &Vec<StoredMessage>, session: &Session, limit: usize) -> (r: Vec<
    StoredMessage,
>)
    requires
        session.wf(),
    ensures
        r@ == visible_page_spec(msgs@, *session, limit as nat),
{
    let mut r: Vec<StoredMessage> = Vec::new();
    let mut i: usize = msgs.len();
    proof {
        assert(msgs@.subrange(0, msgs@.len() as int) =~= msgs@);
    }
    while i > 0 && r.len() < limit
        invariant
            session.wf(),
            0 <= i <= msgs@.len(),
            r@.len() <= limit,
            visible_page_spec(msgs@, *session, limit as nat) == r@ + visible_page_spec(
                msgs@.subrange(0, i as int),
                *session,
                (limit - r@.len()) as nat,
            ),
        decreases i,
    {
        i = i - 1;
        let ghost part = msgs@.subrange(0, i + 1);
        proof {
            assert(part.last() == msgs@[i as int]);
            assert(part.drop_last() =~= msgs@.subrange(0, i as int));
        }
        let m = &msgs[i];
        if session.history_allowed(&m.channel) {
            let ghost tail = visible_page_spec(
                msgs@.subrange(0, i as int),
                *session,
                (limit - r@.len() - 1) as nat,
            );
            proof {
                assert(visible_page_spec(part, *session, (limit - r@.len()) as nat) == seq![
                    msgs@[i as int],
                ] + tail);
                assert(r@ + (seq![msgs@[i as int]] + tail) =~= r@.push(msgs@[i as int]) + tail);
            }
            r.push(m.duplicate());
        }
    }
    proof {
        if r@.len() == limit {
            assert(visible_page_spec(
                msgs@.subrange(0, i as int),
                *session,
                (limit - r@.len()) as nat,
            ) == Seq::<StoredMessage>::empty());
        } else {
            assert(msgs@.subrange(0, 0) =~= Seq::<StoredMessage>::empty());
        }
        assert(r@ + Seq::<StoredMessage>::empty() =~= r@);
    }
    r
}

/// A login-history page never exceeds the requested size, holds only
/// messages whose channel the session may view, and — over a log with
/// strictly increasing identifiers — is ordered newest first.
pub proof fn lemma_visible_page_bounded(msgs: Seq<StoredMessage>, s: Session, limit: nat)
    ensures
        visible_page_spec(msgs, s, limit).len() <= limit,
        forall|i: int|
            0 <= i < visible_page_spec(msgs, s, limit).len() ==> visible(
                #[trigger] visible_page_spec(msgs, s, limit)[i],
                s,
            ),
        ids_increasing(msgs) ==> forall|i: int, j: int|
            0 <= i < j < visible_page_spec(msgs, s, limit).len() ==> visible_page_spec(
                msgs,
                s,
                limit,
            )[i].id > visible_page_spec(msgs, s, limit)[j].id,
    decreases msgs.len(),
{
    let p = visible_page_spec(msgs, s, limit);
    if limit == 0 || msgs.len() == 0 {
        assert(p == Seq::<StoredMessage>::empty());
    } else {
        let rest = msgs.drop_last();
        if ids_increasing(msgs) {
            assert forall|x: int, y: int|
                0 <= x < y < rest.len() implies rest[x].id < rest[y].id by {
                assert(rest[x] == msgs[x] && rest[y] == msgs[y]);
            }
        }
        if visible(msgs.last(), s) {
            lemma_visible_page_bounded(rest, s, (limit - 1) as nat);
            let q = visible_page_spec(rest, s, (limit - 1) as nat);
            assert(p == seq![msgs.last()] + q);
            assert forall|i: int| 0 <= i < p.len() implies visible(p[i], s) by {
                if i > 0 {
                    assert(p[i] == q[i - 1]);
                }
            }
            if ids_increasing(msgs) {
                assert forall|x: int| 0 <= x < rest.len() implies rest[x].id < msgs.last().id by {
                    assert(rest[x] == msgs[x]);
                }
                lemma_visible_page_id_bound(rest, s, (limit - 1) as nat, msgs.last().id);
                assert forall|i: int, j: int| 0 <= i < j < p.len() implies p[i].id > p[j].id by {
                    assert(p[j] == q[j - 1]);
                    if i > 0 {
                        assert(p[i] == q[i - 1]);
                    }
                }
            }
        } else {
            lemma_visible_page_bounded(rest, s, limit);
            assert(p == visible_page_spec(rest, s, limit));
        }
    }
}

/// A bound on every identifier in the log bounds every identifier on a
/// login-history page.
proof fn lemma_visible_page_id_bound(msgs: Seq<StoredMessage>, s: Session, limit: nat, b: u64)
    requires
        forall|i: int| 0 <= i < msgs.len() ==> msgs[i].id < b,
    ensures
        forall|i: int|
            0 <= i < visible_page_spec(msgs, s, limit).len() ==> #[trigger] visible_page_spec(
                msgs,
                s,
                limit,
            )[i].id < b,
    decreases msgs.len(),
{
    let p = visible_page_spec(msgs, s, limit);
    if limit == 0 || msgs.len() == 0 {
        assert(p == Seq::<StoredMessage>::empty());
    } else {
        let rest = msgs.drop_last();
        assert forall|x: int| 0 <= x < rest.len() implies rest[x].id < b by {
            assert(rest[x] == msgs[x]);
        }
        if visible(msgs.last(), s) {
            lemma_visible_page_id_bound(rest, s, (limit - 1) as nat, b);
            let q = visible_page_spec(rest, s, (limit - 1) as nat);
            assert(p == seq![msgs.last()] + q);
            assert forall|i: int| 0 <= i < p.len() implies p[i].id < b by {
                if i > 0 {
                    assert(p[i] == q[i - 1]);
                }
            }
        } else {
            lemma_visible_page_id_bound(rest, s, limit, b);
            assert(p == visible_page_spec(rest, s, limit));
        }
    }
}

/// Why a history request returned no page.
#[derive(Debug)]
pub enum HistoryError {
    /// The session's recorded permission for the channel is false or absent;
    /// no query was run.
    Forbidden,
}

/// Answers a `load-more-messages` request: the permission recorded in the
/// session gates the query, and a denied request is answered `Forbidden`
/// without the store being consulted. An allowed request returns the page
/// for `(channel, before, limit)`, newest first.
pub fn load_history(
    session: &Session,
    store: &MessageStore,
    channel: &String,
    before: Option<u64>,
    limit: usize,
) -> (r: Result<Vec<StoredMessage>, HistoryError>)
    requires
        session.wf(),
    ensures
        session.can_view(channel@) <==> r is Ok,
        match r {
            Ok(page) => page@ == page_spec(store.log(), channel@, before, limit as nat),
            Err(e) => e is Forbidden,
        },
{
    if !session.history_allowed(channel) {
        return Err(HistoryError::Forbidden);
    }
    Ok(store.query(channel, before, limit))
}

} // verus!
