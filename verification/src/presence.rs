//! Presence tracking: which users are currently joined to which channel, and
//! through how many live connections each.
//!
//! One user may hold several live connections; a user belongs to a channel's
//! presence set as long as at least one of them has joined it. `join` and
//! `leave` therefore move a per-(channel, user) connection count, and report
//! the 0-to-1 and 1-to-0 edges — the state transitions on which the joined
//! and left notifications fire exactly once.
//!
//! `ChannelMembers` is one channel's state, the unit a deployment puts behind
//! one lock so that `join` can read back the post-insert snapshot in the same
//! critical section that performed the insert. `PresenceRegistry` keys those
//! states by channel name and is the single in-process authority over
//! presence; an operation on one channel never changes another.

use vstd::prelude::*;

verus! {

/// The views of a sequence of strings.
pub open spec fn names_of(s: Seq<String>) -> Seq<Seq<char>> {
    s.map_values(|x: String| x@)
}

/// The set of names a sequence of strings holds.
pub open spec fn name_set(s: Seq<String>) -> Set<Seq<char>> {
    names_of(s).to_set()
}

/// A connection count after one more join: one more, capped at the type's
/// ceiling.
pub open spec fn after_join(count: u64) -> u64 {
    if count == u64::MAX {
        count
    } else {
        (count + 1) as u64
    }
}

/// A connection count after one more leave: one fewer, floored at zero.
pub open spec fn after_leave(count: u64) -> u64 {
    if count > 0 {
        (count - 1) as u64
    } else {
        0
    }
}

/// Whether a connection count makes the user a member.
pub open spec fn joined(count: u64) -> bool {
    count > 0
}

/// One user's entry in a channel: the name and how many live connections of
/// that user have joined.
struct MemberSlot {
    name: String,
    live: u64,
}

/// The names of the member slots.
spec fn slot_names(s: Seq<MemberSlot>) -> Seq<Seq<char>> {
    s.map_values(|e: MemberSlot| e.name@)
}

/// The connection count recorded for `u` in the slot table, 0 if `u` has no
/// slot.
spec fn count_in(s: Seq<MemberSlot>, u: Seq<char>) -> u64
    decreases s.len(),
{
    if s.len() == 0 {
        0
    } else if s[0].name@ == u {
        s[0].live
    } else {
        count_in(s.drop_first(), u)
    }
}

/// `count_in` reads the slot at the first index whose name matches.
proof fn lemma_count_in_at(s: Seq<MemberSlot>, u: Seq<char>, i: int)
    requires
        0 <= i < s.len(),
        s[i].name@ == u,
        forall|j: int| 0 <= j < i ==> s[j].name@ != u,
    ensures
        count_in(s, u) == s[i].live,
    decreases i,
{
    if i > 0 {
        lemma_count_in_at(s.drop_first(), u, i - 1);
    }
}

/// A user with no slot has count 0.
proof fn lemma_count_in_absent(s: Seq<MemberSlot>, u: Seq<char>)
    requires
        forall|j: int| 0 <= j < s.len() ==> s[j].name@ != u,
    ensures
        count_in(s, u) == 0,
    decreases s.len(),
{
    if s.len() > 0 {
        lemma_count_in_absent(s.drop_first(), u);
    }
}

/// Replacing slot `i` by one for the same name changes no user's count but
/// that name's, and changes that one to the new slot's count when `i` is the
/// first slot of its name.
proof fn lemma_count_in_update(s: Seq<MemberSlot>, i: int, e: MemberSlot, u: Seq<char>)
    requires
        0 <= i < s.len(),
        e.name@ == s[i].name@,
    ensures
        u != s[i].name@ ==> count_in(s.update(i, e), u) == count_in(s, u),
        (u == s[i].name@ && (forall|j: int| 0 <= j < i ==> s[j].name@ != u)) ==> count_in(
            s.update(i, e),
            u,
        ) == e.live,
    decreases i,
{
    let t = s.update(i, e);
    if i == 0 {
        if u != s[0].name@ {
            assert(t.drop_first() =~= s.drop_first());
        }
    } else {
        lemma_count_in_update(s.drop_first(), i - 1, e, u);
        assert(t.drop_first() =~= s.drop_first().update(i - 1, e));
    }
}

/// Appending a slot for a name with no earlier slot gives that name the new
/// slot's count and changes no other name's.
proof fn lemma_count_in_push(s: Seq<MemberSlot>, e: MemberSlot, u: Seq<char>)
    requires
        forall|j: int| 0 <= j < s.len() ==> s[j].name@ != e.name@,
    ensures
        u == e.name@ ==> count_in(s.push(e), u) == e.live,
        u != e.name@ ==> count_in(s.push(e), u) == count_in(s, u),
    decreases s.len(),
{
    let t = s.push(e);
    if s.len() == 0 {
        assert(t[0] == e);
        if u != e.name@ {
            assert(t.drop_first() =~= Seq::<MemberSlot>::empty());
            assert(count_in(t, u) == count_in(t.drop_first(), u));
            assert(count_in(t.drop_first(), u) == 0);
        }
    } else {
        assert(t[0] == s[0]);
        lemma_count_in_push(s.drop_first(), e, u);
        assert(t.drop_first() =~= s.drop_first().push(e));
        if s[0].name@ != u {
            assert(count_in(t, u) == count_in(t.drop_first(), u));
            assert(count_in(s, u) == count_in(s.drop_first(), u));
        }
    }
}

/// Removing the only slot of a name, in a table of distinct names, zeroes
/// that name's count and changes no other name's.
proof fn lemma_count_in_remove(s: Seq<MemberSlot>, i: int, u: Seq<char>)
    requires
        0 <= i < s.len(),
        slot_names(s).no_duplicates(),
    ensures
        u == s[i].name@ ==> count_in(s.remove(i), u) == 0,
        u != s[i].name@ ==> count_in(s.remove(i), u) == count_in(s, u),
    decreases i,
{
    let t = s.remove(i);
    if i == 0 {
        assert(t =~= s.drop_first());
        if u == s[0].name@ {
            assert forall|j: int| 0 <= j < t.len() implies t[j].name@ != u by {
                assert(slot_names(s)[j + 1] != slot_names(s)[0]);
            }
            lemma_count_in_absent(t, u);
        }
    } else {
        assert forall|p: int, q: int|
            0 <= p < q < s.drop_first().len() implies slot_names(s.drop_first())[p] != slot_names(
            s.drop_first(),
        )[q] by {
            assert(slot_names(s)[p + 1] != slot_names(s)[q + 1]);
        }
        lemma_count_in_remove(s.drop_first(), i - 1, u);
        assert(t.drop_first() =~= s.drop_first().remove(i - 1));
        assert(t[0] == s[0]);
        if u == s[i].name@ {
            assert(slot_names(s)[0] != slot_names(s)[i]);
            assert(count_in(t, u) == count_in(t.drop_first(), u));
        } else if s[0].name@ != u {
            assert(count_in(t, u) == count_in(t.drop_first(), u));
            assert(count_in(s, u) == count_in(s.drop_first(), u));
        }
    }
}

/// In a table whose slots all carry a live connection, a name's count is
/// positive exactly when the name has a slot.
proof fn lemma_count_in_positive(s: Seq<MemberSlot>, u: Seq<char>)
    requires
        forall|j: int| 0 <= j < s.len() ==> (#[trigger] s[j]).live >= 1,
    ensures
        (count_in(s, u) > 0) <==> slot_names(s).to_set().contains(u),
    decreases s.len(),
{
    if s.len() == 0 {
    } else if s[0].name@ == u {
        assert(slot_names(s)[0] == u);
    } else {
        assert forall|j: int| 0 <= j < s.drop_first().len() implies (#[trigger] s.drop_first()[j]).live
            >= 1 by {
            assert(s.drop_first()[j] == s[j + 1]);
        }
        lemma_count_in_positive(s.drop_first(), u);
        assert(slot_names(s.drop_first()) =~= slot_names(s).drop_first());
        if slot_names(s).to_set().contains(u) {
            let j = choose|j: int| 0 <= j < s.len() && slot_names(s)[j] == u;
            assert(j > 0);
            assert(slot_names(s.drop_first())[j - 1] == u);
        }
        if slot_names(s.drop_first()).to_set().contains(u) {
            let j = choose|j: int|
                0 <= j < s.drop_first().len() && slot_names(s.drop_first())[j] == u;
            assert(slot_names(s)[j + 1] == u);
        }
    }
}

/// The first index whose slot has `x`'s name, if one exists.
fn find_member(v: &Vec<MemberSlot>, x: &String) -> (r: Option<usize>)
    ensures
        match r {
            Some(i) => i < v@.len() && v@[i as int].name@ == x@ && (forall|j: int|
                0 <= j < i ==> v@[j].name@ != x@),
            None => forall|j: int| 0 <= j < v@.len() ==> v@[j].name@ != x@,
        },
{
    let mut i: usize = 0;
    while i < v.len()
        invariant
            0 <= i <= v@.len(),
            forall|j: int| 0 <= j < i ==> v@[j].name@ != x@,
        decreases v@.len() - i,
    {
        if v[i].name.eq(x) {
            return Some(i);
        }
        i = i + 1;
    }
    None
}

/// The member names of a slot table, one entry per slot.
fn member_names(v: &Vec<MemberSlot>) -> (r: Vec<String>)
    ensures
        names_of(r@) == slot_names(v@),
{
    let mut r: Vec<String> = Vec::new();
    let mut i: usize = 0;
    while i < v.len()
        invariant
            0 <= i <= v@.len(),
            r@.len() == i,
            names_of(r@) =~= slot_names(v@).subrange(0, i as int),
        decreases v@.len() - i,
    {
        r.push(v[i].name.clone());
        proof {
            assert(r@[i as int] == v@[i as int].name);
            assert(names_of(r@)[i as int] == v@[i as int].name@);
            assert(slot_names(v@)[i as int] == v@[i as int].name@);
            assert forall|j: int| 0 <= j < i implies names_of(r@)[j] == slot_names(v@).subrange(
                0,
                i + 1,
            )[j] by {
                assert(names_of(r@)[j] == r@[j]@);
                assert(names_of(r@.drop_last())[j] == r@.drop_last()[j]@);
                assert(r@[j] == r@.drop_last()[j]);
            }
            assert(names_of(r@) =~= slot_names(v@).subrange(0, i + 1));
        }
        i = i + 1;
    }
    proof {
        assert(slot_names(v@).subrange(0, v@.len() as int) =~= slot_names(v@));
    }
    r
}

/// One channel's presence state: per user, how many live connections have
/// joined.
pub struct ChannelMembers {
    members: Vec<MemberSlot>,
}

impl ChannelMembers {
    /// Each name has one slot, and every slot stands for at least one live
    /// connection.
    #[verifier::type_invariant]
    spec fn slots_wf(self) -> bool {
        &&& slot_names(self.members@).no_duplicates()
        &&& forall|j: int| 0 <= j < self.members@.len() ==> (#[trigger] self.members@[j]).live >= 1
    }

    /// How many live connections of `u` have joined.
    pub closed spec fn count_of(self, u: Seq<char>) -> u64 {
        count_in(self.members@, u)
    }

    /// The set of users currently joined: those with a live connection.
    pub open spec fn current(self) -> Set<Seq<char>> {
        Set::new(|u: Seq<char>| self.count_of(u) > 0)
    }

    /// An empty channel: no user holds a connection.
    pub fn new() -> (r: ChannelMembers)
        ensures
            forall|u: Seq<char>| r.count_of(u) == 0,
            r.current() == Set::<Seq<char>>::empty(),
    {
        let r = ChannelMembers { members: Vec::new() };
        proof {
            assert(r.current() =~= Set::<Seq<char>>::empty());
        }
        r
    }

    /// Joins one connection of `user` and reports, atomically with the
    /// insert, the post-insert member snapshot and whether this join made
    /// the user a member — true exactly on the 0-to-1 edge of the user's
    /// connection count.
    pub fn join(&mut self, user: &String) -> (r: (Vec<String>, bool))
        ensures
            r.1 == (old(self).count_of(user@) == 0),
            final(self).count_of(user@) == after_join(old(self).count_of(user@)),
            forall|u: Seq<char>| u != user@ ==> final(self).count_of(u) == old(self).count_of(u),
            final(self).current() == old(self).current().insert(user@),
            name_set(r.0@) == final(self).current(),
            names_of(r.0@).no_duplicates(),
    {
        proof {
            use_type_invariant(&*self);
        }
        let mut m: Vec<MemberSlot> = Vec::new();
        core::mem::swap(&mut self.members, &mut m);
        let ghost before = m@;
        let was_new = match find_member(&m, user) {
            Some(i) => {
                proof {
                    lemma_count_in_at(before, user@, i as int);
                }
                let mut slot = m.remove(i);
                slot.live = if slot.live == u64::MAX {
                    u64::MAX
                } else {
                    slot.live + 1
                };
                m.insert(i, slot);
                proof {
                    assert(m@ =~= before.update(i as int, m@[i as int]));
                    assert(slot_names(m@) =~= slot_names(before));
                    assert forall|u: Seq<char>| true implies count_in(m@, u) == (
                    if u == user@ {
                        after_join(count_in(before, u))
                    } else {
                        count_in(before, u)
                    }) by {
                        lemma_count_in_update(before, i as int, m@[i as int], u);
                    }
                }
                false
            },
            None => {
                proof {
                    lemma_count_in_absent(before, user@);
                }
                m.push(MemberSlot { name: user.clone(), live: 1 });
                proof {
                    assert(slot_names(m@) =~= slot_names(before).push(user@));
                    assert forall|u: Seq<char>| true implies count_in(m@, u) == (
                    if u == user@ {
                        after_join(count_in(before, u))
                    } else {
                        count_in(before, u)
                    }) by {
                        lemma_count_in_push(before, m@[before.len() as int], u);
                    }
                }
                true
            },
        };
        let snapshot = member_names(&m);
        proof {
            assert forall|u: Seq<char>| true implies ((count_in(m@, u) > 0) == (count_in(
                before,
                u,
            ) > 0 || u == user@)) by {}
            assert(Set::new(|u: Seq<char>| count_in(m@, u) > 0) =~= Set::new(
                |u: Seq<char>| count_in(before, u) > 0,
            ).insert(user@));
            lemma_count_in_positive(m@, user@);
            assert forall|u: Seq<char>| true implies (name_set(snapshot@).contains(u) == (count_in(
                m@,
                u,
            ) > 0)) by {
                lemma_count_in_positive(m@, u);
                assert(names_of(snapshot@) == slot_names(m@));
            }
            assert(name_set(snapshot@) =~= Set::new(|u: Seq<char>| count_in(m@, u) > 0));
        }
        core::mem::swap(&mut self.members, &mut m);
        (snapshot, was_new)
    }

    /// Removes one connection of `user` and reports whether this leave ended
    /// the user's membership — true exactly on the 1-to-0 edge of the
    /// connection count. While another live connection of the user remains,
    /// the user stays a member.
    pub fn leave(&mut self, user: &String) -> (was_member: bool)
        ensures
            was_member == (old(self).count_of(user@) == 1),
            final(self).count_of(user@) == after_leave(old(self).count_of(user@)),
            forall|u: Seq<char>| u != user@ ==> final(self).count_of(u) == old(self).count_of(u),
            final(self).current() == if old(self).count_of(user@) == 1 {
                old(self).current().remove(user@)
            } else {
                old(self).current()
            },
    {
        proof {
            use_type_invariant(&*self);
        }
        let mut m: Vec<MemberSlot> = Vec::new();
        core::mem::swap(&mut self.members, &mut m);
        let ghost before = m@;
        let was_member = match find_member(&m, user) {
            Some(i) => {
                proof {
                    lemma_count_in_at(before, user@, i as int);
                }
                let last_connection = m[i].live == 1;
                if last_connection {
                    m.remove(i);
                    proof {
                        assert(m@ =~= before.remove(i as int));
                        assert forall|p: int, q: int|
                            0 <= p < q < m@.len() implies slot_names(m@)[p] != slot_names(m@)[q] by {
                            let p0 = if p < i { p } else { p + 1 };
                            let q0 = if q < i { q } else { q + 1 };
                            assert(slot_names(m@)[p] == slot_names(before)[p0]);
                            assert(slot_names(m@)[q] == slot_names(before)[q0]);
                        }
                        assert forall|j: int|
                            0 <= j < m@.len() implies (#[trigger] m@[j]).live >= 1 by {
                            let j0 = if j < i { j } else { j + 1 };
                            assert(m@[j] == before[j0]);
                        }
                        assert forall|u: Seq<char>| true implies count_in(m@, u) == (
                        if u == user@ {
                            after_leave(count_in(before, u))
                        } else {
                            count_in(before, u)
                        }) by {
                            lemma_count_in_remove(before, i as int, u);
                        }
                    }
                } else {
                    let mut slot = m.remove(i);
                    slot.live = slot.live - 1;
                    m.insert(i, slot);
                    proof {
                        assert(m@ =~= before.update(i as int, m@[i as int]));
                        assert(slot_names(m@) =~= slot_names(before));
                        assert forall|u: Seq<char>| true implies count_in(m@, u) == (
                        if u == user@ {
                            after_leave(count_in(before, u))
                        } else {
                            count_in(before, u)
                        }) by {
                            lemma_count_in_update(before, i as int, m@[i as int], u);
                        }
                    }
                }
                last_connection
            },
            None => {
                proof {
                    lemma_count_in_absent(before, user@);
                }
                false
            },
        };
        proof {
            if count_in(before, user@) == 1 {
                assert(Set::new(|u: Seq<char>| count_in(m@, u) > 0) =~= Set::new(
                    |u: Seq<char>| count_in(before, u) > 0,
                ).remove(user@));
            } else {
                assert(Set::new(|u: Seq<char>| count_in(m@, u) > 0) =~= Set::new(
                    |u: Seq<char>| count_in(before, u) > 0,
                ));
            }
        }
        core::mem::swap(&mut self.members, &mut m);
        was_member
    }

    /// The current members, one entry per user with a live connection.
    pub fn current_members(&self) -> (r: Vec<String>)
        ensures
            name_set(r@) == self.current(),
            names_of(r@).no_duplicates(),
    {
        proof {
            use_type_invariant(self);
        }
        let r = member_names(&self.members);
        proof {
            assert forall|u: Seq<char>| true implies (name_set(r@).contains(u) == (count_in(
                self.members@,
                u,
            ) > 0)) by {
                lemma_count_in_positive(self.members@, u);
            }
            assert(name_set(r@) =~= self.current());
        }
        r
    }
}

/// One channel's entry in the registry.
struct PresenceSlot {
    channel: String,
    members: ChannelMembers,
}

/// The channel names of a slot table.
spec fn slot_channels(s: Seq<PresenceSlot>) -> Seq<Seq<char>> {
    s.map_values(|e: PresenceSlot| e.channel@)
}

/// The per-user connection counts of every channel, keyed by channel name. A
/// channel never joined holds count 0 for every user.
pub struct PresenceRegistry {
    slots: Vec<PresenceSlot>,
}

/// The connection count recorded for `u` on channel `c` in the slot table, 0
/// if `c` has no slot.
spec fn connections_in(s: Seq<PresenceSlot>, c: Seq<char>, u: Seq<char>) -> u64
    decreases s.len(),
{
    if s.len() == 0 {
        0
    } else if s[0].channel@ == c {
        s[0].members.count_of(u)
    } else {
        connections_in(s.drop_first(), c, u)
    }
}

/// `connections_in` reads the slot at the first index whose channel matches.
proof fn lemma_connections_in_at(s: Seq<PresenceSlot>, c: Seq<char>, u: Seq<char>, i: int)
    requires
        0 <= i < s.len(),
        s[i].channel@ == c,
        forall|j: int| 0 <= j < i ==> s[j].channel@ != c,
    ensures
        connections_in(s, c, u) == s[i].members.count_of(u),
    decreases i,
{
    if i > 0 {
        lemma_connections_in_at(s.drop_first(), c, u, i - 1);
    }
}

/// A channel with no slot has no connections.
proof fn lemma_connections_in_absent(s: Seq<PresenceSlot>, c: Seq<char>, u: Seq<char>)
    requires
        forall|j: int| 0 <= j < s.len() ==> s[j].channel@ != c,
    ensures
        connections_in(s, c, u) == 0,
    decreases s.len(),
{
    if s.len() > 0 {
        lemma_connections_in_absent(s.drop_first(), c, u);
    }
}

/// Replacing slot `i` by one for the same channel changes no channel's
/// counts but that one's, and changes those to the new slot's when `i` is
/// the first slot of its channel.
proof fn lemma_connections_in_update(
    s: Seq<PresenceSlot>,
    i: int,
    e: PresenceSlot,
    c: Seq<char>,
    u: Seq<char>,
)
    requires
        0 <= i < s.len(),
        e.channel@ == s[i].channel@,
    ensures
        c != s[i].channel@ ==> connections_in(s.update(i, e), c, u) == connections_in(s, c, u),
        (c == s[i].channel@ && (forall|j: int| 0 <= j < i ==> s[j].channel@ != c))
            ==> connections_in(s.update(i, e), c, u) == e.members.count_of(u),
    decreases i,
{
    let t = s.update(i, e);
    if i == 0 {
        if c != s[0].channel@ {
            assert(t.drop_first() =~= s.drop_first());
        }
    } else {
        lemma_connections_in_update(s.drop_first(), i - 1, e, c, u);
        assert(t.drop_first() =~= s.drop_first().update(i - 1, e));
    }
}

/// Appending a slot for a channel with no earlier slot gives that channel
/// the new slot's counts and changes no other channel's.
proof fn lemma_connections_in_push(s: Seq<PresenceSlot>, e: PresenceSlot, c: Seq<char>, u: Seq<char>)
    requires
        forall|j: int| 0 <= j < s.len() ==> s[j].channel@ != e.channel@,
    ensures
        c == e.channel@ ==> connections_in(s.push(e), c, u) == e.members.count_of(u),
        c != e.channel@ ==> connections_in(s.push(e), c, u) == connections_in(s, c, u),
    decreases s.len(),
{
    let t = s.push(e);
    if s.len() == 0 {
        assert(t[0] == e);
        if c != e.channel@ {
            assert(t.drop_first() =~= Seq::<PresenceSlot>::empty());
            assert(connections_in(t, c, u) == connections_in(t.drop_first(), c, u));
            assert(connections_in(t.drop_first(), c, u) == 0);
        }
    } else {
        assert(t[0] == s[0]);
        lemma_connections_in_push(s.drop_first(), e, c, u);
        assert(t.drop_first() =~= s.drop_first().push(e));
        if s[0].channel@ != c {
            assert(connections_in(t, c, u) == connections_in(t.drop_first(), c, u));
            assert(connections_in(s, c, u) == connections_in(s.drop_first(), c, u));
        }
    }
}

/// The index of `channel`'s slot in the table, if one exists.
fn find_slot(slots: &Vec<PresenceSlot>, channel: &String) -> (r: Option<usize>)
    ensures
        match r {
            Some(i) => i < slots@.len() && slots@[i as int].channel@ == channel@ && (forall|j: int|
                0 <= j < i ==> slots@[j].channel@ != channel@),
            None => forall|j: int| 0 <= j < slots@.len() ==> slots@[j].channel@ != channel@,
        },
{
    let mut i: usize = 0;
    while i < slots.len()
        invariant
            0 <= i <= slots@.len(),
            forall|j: int| 0 <= j < i ==> slots@[j].channel@ != channel@,
        decreases slots@.len() - i,
    {
        if slots[i].channel.eq(channel) {
            return Some(i);
        }
        i = i + 1;
    }
    None
}

impl PresenceRegistry {
    /// Each channel has at most one slot.
    #[verifier::type_invariant]
    spec fn distinct_channels(self) -> bool {
        slot_channels(self.slots@).no_duplicates()
    }

    /// How many live connections of `u` have joined channel `c`.
    pub closed spec fn connections(self, c: Seq<char>, u: Seq<char>) -> u64 {
        connections_in(self.slots@, c, u)
    }

    /// The set of users currently joined to channel `c`: those with a live
    /// connection there.
    pub open spec fn members_of(self, c: Seq<char>) -> Set<Seq<char>> {
        Set::new(|u: Seq<char>| self.connections(c, u) > 0)
    }

    /// A registry with every channel empty.
    pub fn new() -> (r: PresenceRegistry)
        ensures
            forall|c: Seq<char>, u: Seq<char>| r.connections(c, u) == 0,
            forall|c: Seq<char>| r.members_of(c) == Set::<Seq<char>>::empty(),
    {
        let r = PresenceRegistry { slots: Vec::new() };
        proof {
            assert forall|c: Seq<char>| true implies r.members_of(c) == Set::<Seq<char>>::empty() by {
                assert(r.members_of(c) =~= Set::<Seq<char>>::empty());
            }
        }
        r
    }

    /// Joins one connection of `user` to `channel`, creating the channel's
    /// slot on first reference, and reports the post-insert snapshot and
    /// whether this join made the user a member — true exactly on the 0-to-1
    /// edge of the user's connection count there. No other count changes.
    pub fn join(&mut self, channel: &String, user: &String) -> (r: (Vec<String>, bool))
        ensures
            r.1 == (old(self).connections(channel@, user@) == 0),
            final(self).connections(channel@, user@) == after_join(
                old(self).connections(channel@, user@),
            ),
            forall|c: Seq<char>, u: Seq<char>|
                !(c == channel@ && u == user@) ==> final(self).connections(c, u) == old(
                    self,
                ).connections(c, u),
            final(self).members_of(channel@) == old(self).members_of(channel@).insert(user@),
            forall|c: Seq<char>|
                c != channel@ ==> final(self).members_of(c) == old(self).members_of(c),
            name_set(r.0@) == final(self).members_of(channel@),
            names_of(r.0@).no_duplicates(),
    {
        proof {
            use_type_invariant(&*self);
        }
        let mut slots: Vec<PresenceSlot> = Vec::new();
        core::mem::swap(&mut self.slots, &mut slots);
        let ghost before = slots@;
        let i: usize = match find_slot(&slots, channel) {
            Some(i) => i,
            None => {
                let slot = PresenceSlot {
                    channel: channel.clone(),
                    members: ChannelMembers::new(),
                };
                let i = slots.len();
                slots.push(slot);
                proof {
                    assert(slot_channels(slots@) =~= slot_channels(before).push(channel@));
                    assert forall|c: Seq<char>, u: Seq<char>| true implies connections_in(
                        slots@,
                        c,
                        u,
                    ) == (if c == channel@ {
                        slots@[i as int].members.count_of(u)
                    } else {
                        connections_in(before, c, u)
                    }) by {
                        lemma_connections_in_push(before, slots@[i as int], c, u);
                    }
                    assert forall|c: Seq<char>, u: Seq<char>| true implies connections_in(
                        slots@,
                        c,
                        u,
                    ) == connections_in(before, c, u) by {
                        if c == channel@ {
                            lemma_connections_in_absent(before, c, u);
                        }
                    }
                }
                i
            },
        };
        let ghost mid = slots@;
        proof {
            assert forall|u: Seq<char>| true implies connections_in(mid, channel@, u)
                == mid[i as int].members.count_of(u) by {
                lemma_connections_in_at(mid, channel@, u, i as int);
            }
        }
        let mut slot = slots.remove(i);
        let result = slot.members.join(user);
        slots.insert(i, slot);
        proof {
            assert(slots@ =~= mid.update(i as int, slots@[i as int]));
            assert(slot_channels(slots@) =~= slot_channels(mid));
            assert forall|c: Seq<char>, u: Seq<char>| true implies connections_in(slots@, c, u) == (
            if c == channel@ {
                slots@[i as int].members.count_of(u)
            } else {
                connections_in(mid, c, u)
            }) by {
                lemma_connections_in_update(mid, i as int, slots@[i as int], c, u);
            }
        }
        core::mem::swap(&mut self.slots, &mut slots);
        proof {
            assert(self.members_of(channel@) =~= old(self).members_of(channel@).insert(user@));
            assert forall|c: Seq<char>| c != channel@ implies self.members_of(c) == old(
                self,
            ).members_of(c) by {
                assert(self.members_of(c) =~= old(self).members_of(c));
            }
            assert(name_set(result.0@) =~= self.members_of(channel@));
        }
        result
    }

    /// Removes one connection of `user` from `channel` and reports whether
    /// this leave ended the user's membership — true exactly on the 1-to-0
    /// edge of the connection count there. While another live connection of
    /// the user remains joined, the user stays a member. No other count
    /// changes.
    pub fn leave(&mut self, channel: &String, user: &String) -> (was_member: bool)
        ensures
            was_member == (old(self).connections(channel@, user@) == 1),
            final(self).connections(channel@, user@) == after_leave(
                old(self).connections(channel@, user@),
            ),
            forall|c: Seq<char>, u: Seq<char>|
                !(c == channel@ && u == user@) ==> final(self).connections(c, u) == old(
                    self,
                ).connections(c, u),
            final(self).members_of(channel@) == if old(self).connections(channel@, user@) == 1 {
                old(self).members_of(channel@).remove(user@)
            } else {
                old(self).members_of(channel@)
            },
            forall|c: Seq<char>|
                c != channel@ ==> final(self).members_of(c) == old(self).members_of(c),
    {
        proof {
            use_type_invariant(&*self);
        }
        let mut slots: Vec<PresenceSlot> = Vec::new();
        core::mem::swap(&mut self.slots, &mut slots);
        let ghost before = slots@;
        let was_member = match find_slot(&slots, channel) {
            Some(i) => {
                proof {
                    assert forall|u: Seq<char>| true implies connections_in(before, channel@, u)
                        == before[i as int].members.count_of(u) by {
                        lemma_connections_in_at(before, channel@, u, i as int);
                    }
                }
                let mut slot = slots.remove(i);
                let was_member = slot.members.leave(user);
                slots.insert(i, slot);
                proof {
                    assert(slots@ =~= before.update(i as int, slots@[i as int]));
                    assert(slot_channels(slots@) =~= slot_channels(before));
                    assert forall|c: Seq<char>, u: Seq<char>| true implies connections_in(
                        slots@,
                        c,
                        u,
                    ) == (if c == channel@ {
                        slots@[i as int].members.count_of(u)
                    } else {
                        connections_in(before, c, u)
                    }) by {
                        lemma_connections_in_update(before, i as int, slots@[i as int], c, u);
                    }
                }
                was_member
            },
            None => {
                proof {
                    assert forall|u: Seq<char>| true implies connections_in(before, channel@, u)
                        == 0 by {
                        lemma_connections_in_absent(before, channel@, u);
                    }
                }
                false
            },
        };
        core::mem::swap(&mut self.slots, &mut slots);
        proof {
            if old(self).connections(channel@, user@) == 1 {
                assert(self.members_of(channel@) =~= old(self).members_of(channel@).remove(user@));
            } else {
                assert(self.members_of(channel@) =~= old(self).members_of(channel@));
            }
            assert forall|c: Seq<char>| c != channel@ implies self.members_of(c) == old(
                self,
            ).members_of(c) by {
                assert(self.members_of(c) =~= old(self).members_of(c));
            }
        }
        was_member
    }

    /// The current members of `channel`, one entry per user with a live
    /// connection there.
    pub fn current_members(&self, channel: &String) -> (r: Vec<String>)
        ensures
            name_set(r@) == self.members_of(channel@),
            names_of(r@).no_duplicates(),
    {
        proof {
            use_type_invariant(self);
        }
        match find_slot(&self.slots, channel) {
            Some(i) => {
                proof {
                    assert forall|u: Seq<char>| true implies connections_in(
                        self.slots@,
                        channel@,
                        u,
                    ) == self.slots@[i as int].members.count_of(u) by {
                        lemma_connections_in_at(self.slots@, channel@, u, i as int);
                    }
                }
                let r = self.slots[i].members.current_members();
                proof {
                    assert(name_set(r@) =~= self.members_of(channel@));
                }
                r
            },
            None => {
                proof {
                    assert forall|u: Seq<char>| true implies connections_in(
                        self.slots@,
                        channel@,
                        u,
                    ) == 0 by {
                        lemma_connections_in_absent(self.slots@, channel@, u);
                    }
                    assert(self.members_of(channel@) =~= Set::<Seq<char>>::empty());
                    assert(name_set(Seq::<String>::empty()) =~= Set::<Seq<char>>::empty());
                }
                Vec::new()
            },
        }
    }
}

/// How many of `n` consecutive `join` calls for one user on one channel,
/// starting from connection count `count`, report a new membership. Each
/// call's report and next state follow `join`'s contract: a call reports the
/// 0-to-1 edge exactly when the count is 0, and the count afterwards is one
/// higher.
pub open spec fn new_join_reports(count: u64, n: nat) -> nat
    decreases n,
{
    if n == 0 {
        0
    } else {
        (if count == 0 {
            1nat
        } else {
            0nat
        }) + new_join_reports(after_join(count), (n - 1) as nat)
    }
}

/// Law: in any run of `join(channel, u)` calls for one `(channel, u)` pair —
/// the order the channel's critical section serializes concurrent calls
/// into — exactly one call reports a new membership when the user starts
/// with no live connection.
pub proof fn lemma_new_join_reported_exactly_once(count: u64, n: nat)
    requires
        n > 0,
        count == 0,
    ensures
        new_join_reports(count, n) == 1,
{
    lemma_repeat_join_reports_none(after_join(count), (n - 1) as nat);
}

/// Law: a `join` of a user who already holds a live connection reports no
/// new membership, however often it is repeated.
pub proof fn lemma_repeat_join_reports_none(count: u64, n: nat)
    requires
        count > 0,
    ensures
        new_join_reports(count, n) == 0,
    decreases n,
{
    if n > 0 {
        lemma_repeat_join_reports_none(after_join(count), (n - 1) as nat);
    }
}

/// Law: after a `join(channel, u)` followed by a `leave(channel, u)` for a
/// user who held no other live connection there, the member set does not
/// contain `u` — and that `leave` reported the ended membership, since it
/// ran at connection count 1. A user who already holds a live connection is
/// left out: for such a user the leave ends nothing, by design.
pub proof fn lemma_join_then_leave(count: u64)
    requires
        count == 0,
    ensures
        joined(after_join(count)),
        after_join(count) == 1,
        !joined(after_leave(after_join(count))),
{
}

/// Law: a leave never ends a membership another live connection still
/// holds — with more than one connection joined, the user remains a member
/// after one leave.
pub proof fn lemma_leave_keeps_other_connections(count: u64)
    requires
        count > 1,
    ensures
        joined(after_leave(count)),
        !(count == 1),
{
}

} // verus!
