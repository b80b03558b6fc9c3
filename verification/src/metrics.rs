//! Serving metrics: a count of messages handled and a gauge of connected
//! users. The counters are an explicitly constructed object that the
//! server threads its way; exporting them to a metrics registry is the
//! surrounding program's business.

use vstd::prelude::*;

verus! {

/// The relay's two counters.
pub struct Metrics {
    /// Total messages the server has handled.
    pub messages_count: u64,
    /// Users currently connected.
    pub connected_users: i64,
}

impl Metrics {
    /// Both counters start at zero.
    pub fn new() -> (r: Self)
        ensures
            r.messages_count == 0,
            r.connected_users == 0,
    {
        Metrics { messages_count: 0, connected_users: 0 }
    }

    /// Counts one handled message.
    pub fn messages_up(&mut self)
        requires
            old(self).messages_count < u64::MAX,
        ensures
            final(self).messages_count == old(self).messages_count + 1,
            final(self).connected_users == old(self).connected_users,
    {
        self.messages_count = self.messages_count + 1;
    }

    /// Counts one user in.
    pub fn users_up(&mut self)
        requires
            old(self).connected_users < i64::MAX,
        ensures
            final(self).connected_users == old(self).connected_users + 1,
            final(self).messages_count == old(self).messages_count,
    {
        self.connected_users = self.connected_users + 1;
    }

    /// Counts one user out.
    pub fn users_down(&mut self)
        requires
            old(self).connected_users > i64::MIN,
        ensures
            final(self).connected_users == old(self).connected_users - 1,
            final(self).messages_count == old(self).messages_count,
    {
        self.connected_users = self.connected_users - 1;
    }
}

} // verus!
