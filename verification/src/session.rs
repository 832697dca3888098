//! The authenticated state bound to one live connection: who the connection
//! is, which channels it may operate on, and for which of them history
//! viewing was allowed at login time. The permission is recorded once, at
//! login, and never re-read mid-session.

use crate::presence::{name_set, names_of};
use vstd::prelude::*;

verus! {

/// The session created for a connection on successful login; a connection
/// without one is unauthenticated and may only attempt a login.
pub struct Session {
    /// The authenticated username.
    pub nick: String,
    /// The channels the account belongs to, in the account's order.
    pub channels: Vec<String>,
    /// For each channel, whether history viewing is allowed; paired with
    /// `channels` by position.
    pub view_history: Vec<bool>,
}

/// The history flag recorded for `c` in paired channel/flag lists, false
/// where `c` is absent.
pub open spec fn flag_for(channels: Seq<String>, flags: Seq<bool>, c: Seq<char>) -> bool
    decreases channels.len(),
{
    if channels.len() == 0 || flags.len() == 0 {
        false
    } else if channels[0]@ == c {
        flags[0]
    } else {
        flag_for(channels.drop_first(), flags.drop_first(), c)
    }
}

impl Session {
    /// The channel and flag lists pair up, and each channel the account
    /// belongs to is listed once.
    pub open spec fn wf(self) -> bool {
        &&& self.channels@.len() == self.view_history@.len()
        &&& names_of(self.channels@).no_duplicates()
    }

    /// Whether the session may operate on channel `c`.
    pub open spec fn authorized(self, c: Seq<char>) -> bool {
        name_set(self.channels@).contains(c)
    }

    /// Whether the session may read history for channel `c`: the flag
    /// recorded at login for `c`, false where none was.
    pub open spec fn can_view(self, c: Seq<char>) -> bool {
        flag_for(self.channels@, self.view_history@, c)
    }

    /// Whether the session may operate on `channel`.
    pub fn is_authorized(&self, channel: &String) -> (r: bool)
        ensures
            r == self.authorized(channel@),
    {
        let mut i: usize = 0;
        while i < self.channels.len()
            invariant
                0 <= i <= self.channels@.len(),
                forall|j: int| 0 <= j < i ==> names_of(self.channels@)[j] != channel@,
            decreases self.channels@.len() - i,
        {
            if self.channels[i].eq(channel) {
                proof {
                    assert(names_of(self.channels@)[i as int] == channel@);
                }
                return true;
            }
            i = i + 1;
        }
        proof {
            assert(!names_of(self.channels@).contains(channel@));
        }
        false
    }

    /// Whether the session may read history for `channel`.
    pub fn history_allowed(&self, channel: &String) -> (r: bool)
        requires
            self.wf(),
        ensures
            r == self.can_view(channel@),
    {
        let mut i: usize = 0;
        proof {
            assert(self.channels@.skip(0) =~= self.channels@);
            assert(self.view_history@.skip(0) =~= self.view_history@);
        }
        while i < self.channels.len()
            invariant
                self.wf(),
                0 <= i <= self.channels@.len(),
                flag_for(self.channels@, self.view_history@, channel@) == flag_for(
                    self.channels@.skip(i as int),
                    self.view_history@.skip(i as int),
                    channel@,
                ),
            decreases self.channels@.len() - i,
        {
            proof {
                assert(self.channels@.skip(i as int)[0] == self.channels@[i as int]);
                assert(self.view_history@.skip(i as int)[0] == self.view_history@[i as int]);
            }
            if self.channels[i].eq(channel) {
                return self.view_history[i];
            }
            proof {
                assert(self.channels@.skip(i as int).drop_first() =~= self.channels@.skip(i + 1));
                assert(self.view_history@.skip(i as int).drop_first() =~= self.view_history@.skip(
                    i + 1,
                ));
            }
            i = i + 1;
        }
        proof {
            assert(self.channels@.skip(self.channels@.len() as int).len() == 0);
        }
        false
    }
}

} // verus!
