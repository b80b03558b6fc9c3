//! The persistence model and the backlog resolver. The durable store
//! keeps one row per chat message — `(time, sender, message)` — and one
//! last-seen watermark per display name. On a reconnect the resolver
//! computes exactly the messages the client missed: those strictly newer
//! than its watermark and not authored by it, ordered by time and then
//! by sender. A name with no watermark gets nothing: a brand-new user is
//! never shown history that predates its existence.

use vstd::prelude::*;
use vstd::seq_lib::{to_multiset_build, to_multiset_insert};

use crate::codec::{Message, MessageView};
use crate::seq_facts::lemma_filter_push;
use crate::strutil::{spec_lex_le, lemma_lex_le_total, str_eq, str_le};
use vstd::string::StringExecFns;

verus! {

/// One persisted chat message row.
pub struct StoredMessage {
    pub user_name: String,
    pub time: u64,
    pub message: Message,
}

/// The mathematical value of a stored row.
pub struct StoredMessageView {
    pub user_name: Seq<char>,
    pub time: u64,
    pub message: MessageView,
}

impl View for StoredMessage {
    type V = StoredMessageView;

    open spec fn view(&self) -> StoredMessageView {
        StoredMessageView { user_name: self.user_name@, time: self.time, message: self.message@ }
    }
}

/// One display name's last-seen watermark.
pub struct UserData {
    pub user_name: String,
    pub last_seen: u64,
}

/// The mathematical value of a watermark row.
pub struct UserDataView {
    pub user_name: Seq<char>,
    pub last_seen: u64,
}

impl View for UserData {
    type V = UserDataView;

    open spec fn view(&self) -> UserDataView {
        UserDataView { user_name: self.user_name@, last_seen: self.last_seen }
    }
}

/// The backlog order: by timestamp, ties broken by sender name.
pub open spec fn spec_entry_le(a: StoredMessageView, b: StoredMessageView) -> bool {
    a.time < b.time || (a.time == b.time && spec_lex_le(a.user_name, b.user_name))
}

/// The order is total.
pub proof fn lemma_entry_le_total(a: StoredMessageView, b: StoredMessageView)
    ensures
        spec_entry_le(a, b) || spec_entry_le(b, a),
{
    if a.time == b.time {
        lemma_lex_le_total(a.user_name, b.user_name);
    }
}

/// Ascending by `(time, sender)`.
pub open spec fn spec_sorted(es: Seq<StoredMessageView>) -> bool {
    forall|i: int, j: int| 0 <= i < j < es.len() ==> spec_entry_le(es[i], es[j])
}

/// The rows a reconnecting `name` with watermark `t` has missed.
pub open spec fn spec_missing_pred(t: u64, name: Seq<char>) -> spec_fn(StoredMessageView) -> bool {
    |e: StoredMessageView| e.time > t && e.user_name != name
}

/// The set of missed rows, in log order.
pub open spec fn spec_missing_set(
    entries: Seq<StoredMessageView>,
    name: Seq<char>,
    t: u64,
) -> Seq<StoredMessageView> {
    entries.filter(spec_missing_pred(t, name))
}

/// The first watermark recorded for `n`, scanning left to right.
pub open spec fn spec_lookup(s: Seq<UserDataView>, n: Seq<char>) -> Option<u64>
    decreases s.len(),
{
    if s.len() == 0 {
        None
    } else if s[0].user_name == n {
        Some(s[0].last_seen)
    } else {
        spec_lookup(s.drop_first(), n)
    }
}

proof fn lemma_lookup_prefix(s: Seq<UserDataView>, n: Seq<char>, i: int)
    requires
        0 <= i <= s.len(),
        forall|k: int| 0 <= k < i ==> s[k].user_name != n,
    ensures
        spec_lookup(s, n) == spec_lookup(s.skip(i), n),
    decreases i,
{
    if i == 0 {
        assert(s.skip(0) =~= s);
    } else {
        assert(s.drop_first().skip(i - 1) =~= s.skip(i));
        assert(forall|k: int| 0 <= k < i - 1 ==> #[trigger] s.drop_first()[k].user_name != n);
        lemma_lookup_prefix(s.drop_first(), n, i - 1);
    }
}

proof fn lemma_lookup_update(s: Seq<UserDataView>, i: int, v: UserDataView)
    requires
        0 <= i < s.len(),
        v.user_name == s[i].user_name,
        forall|k: int| 0 <= k < i ==> s[k].user_name != s[i].user_name,
    ensures
        forall|n: Seq<char>| #[trigger] spec_lookup(s.update(i, v), n) == (if n == s[i].user_name {
            Some(v.last_seen)
        } else {
            spec_lookup(s, n)
        }),
    decreases i,
{
    let s2 = s.update(i, v);
    if i == 0 {
        assert forall|n: Seq<char>| #[trigger] spec_lookup(s2, n) == (if n == s[0].user_name {
            Some(v.last_seen)
        } else {
            spec_lookup(s, n)
        }) by {
            assert(s2[0] == v);
            if n != s[0].user_name {
                assert(s2.drop_first() =~= s.drop_first());
            }
        }
    } else {
        assert(s.drop_first().update(i - 1, v) =~= s2.drop_first());
        assert(forall|k: int|
            0 <= k < i - 1 ==> #[trigger] s.drop_first()[k].user_name != s.drop_first()[i
                - 1].user_name);
        lemma_lookup_update(s.drop_first(), i - 1, v);
        assert forall|n: Seq<char>| #[trigger] spec_lookup(s2, n) == (if n == s[i].user_name {
            Some(v.last_seen)
        } else {
            spec_lookup(s, n)
        }) by {
            assert(s2[0] == s[0]);
            assert(spec_lookup(s.drop_first().update(i - 1, v), n) == (if n == s[i].user_name {
                Some(v.last_seen)
            } else {
                spec_lookup(s.drop_first(), n)
            }));
        }
    }
}

proof fn lemma_lookup_push(s: Seq<UserDataView>, v: UserDataView)
    requires
        forall|k: int| 0 <= k < s.len() ==> s[k].user_name != v.user_name,
    ensures
        forall|n: Seq<char>| #[trigger] spec_lookup(s.push(v), n) == (if n == v.user_name {
            Some(v.last_seen)
        } else {
            spec_lookup(s, n)
        }),
    decreases s.len(),
{
    if s.len() == 0 {
        assert forall|n: Seq<char>| #[trigger] spec_lookup(s.push(v), n) == (if n == v.user_name {
            Some(v.last_seen)
        } else {
            spec_lookup(s, n)
        }) by {
            assert(s.push(v)[0] == v);
            if n != v.user_name {
                assert(s.push(v).drop_first() =~= Seq::<UserDataView>::empty());
                assert(spec_lookup(s.push(v).drop_first(), n) == None::<u64>);
            }
        }
    } else {
        assert(s.drop_first().push(v) =~= s.push(v).drop_first());
        assert(forall|k: int|
            0 <= k < s.drop_first().len() ==> #[trigger] s.drop_first()[k].user_name
                != v.user_name);
        lemma_lookup_push(s.drop_first(), v);
        assert forall|n: Seq<char>| #[trigger] spec_lookup(s.push(v), n) == (if n == v.user_name {
            Some(v.last_seen)
        } else {
            spec_lookup(s, n)
        }) by {
            assert(s.push(v)[0] == s[0]);
            assert(spec_lookup(s.drop_first().push(v), n) == (if n == v.user_name {
                Some(v.last_seen)
            } else {
                spec_lookup(s.drop_first(), n)
            }));
        }
    }
}

/// The in-memory model of the durable store: the message log in arrival
/// order and one watermark per name.
pub struct MessageLog {
    messages: Vec<StoredMessage>,
    last_seen: Vec<UserData>,
}

impl MessageLog {
    /// The persisted rows, in the order they were stored.
    pub closed spec fn entries(self) -> Seq<StoredMessageView> {
        self.messages@.map_values(|e: StoredMessage| e@)
    }

    /// The watermark rows.
    pub closed spec fn watermarks(self) -> Seq<UserDataView> {
        self.last_seen@.map_values(|u: UserData| u@)
    }

    /// The watermark of one name.
    pub open spec fn watermark(self, n: Seq<char>) -> Option<u64> {
        spec_lookup(self.watermarks(), n)
    }

    /// One watermark row per name.
    pub open spec fn wf(self) -> bool {
        forall|i: int, j: int|
            0 <= i < j < self.watermarks().len() ==> (#[trigger] self.watermarks()[i]).user_name
                != (#[trigger] self.watermarks()[j]).user_name
    }

    /// An empty store: no rows, no watermarks.
    pub fn new() -> (r: Self)
        ensures
            r.entries() == Seq::<StoredMessageView>::empty(),
            r.watermarks() == Seq::<UserDataView>::empty(),
            r.wf(),
    {
        let r = MessageLog { messages: Vec::new(), last_seen: Vec::new() };
        proof {
            assert(r.entries() =~= Seq::<StoredMessageView>::empty());
            assert(r.watermarks() =~= Seq::<UserDataView>::empty());
        }
        r
    }

    /// Appends one chat message row. Watermarks are untouched.
    pub fn store_message(&mut self, time: u64, user_name: &str, message: &Message)
        requires
            old(self).wf(),
        ensures
            final(self).wf(),
            final(self).entries() == old(self).entries().push(
                StoredMessageView { user_name: user_name@, time, message: message@ },
            ),
            final(self).watermarks() == old(self).watermarks(),
    {
        let row = StoredMessage {
            user_name: String::from_str(user_name),
            time,
            message: message.clone(),
        };
        self.messages.push(row);
        proof {
            assert(self.entries() =~= old(self).entries().push(
                StoredMessageView { user_name: user_name@, time, message: message@ },
            ));
            assert(self.watermarks() =~= old(self).watermarks());
        }
    }

    /// The watermark recorded for `client`, if any.
    pub fn get_last_online_time(&self, client: &str) -> (r: Option<u64>)
        ensures
            r == self.watermark(client@),
    {
        let n = self.last_seen.len();
        let mut i: usize = 0;
        while i < n
            invariant
                0 <= i <= n,
                n == self.last_seen@.len(),
                n == self.watermarks().len(),
                forall|k: int| 0 <= k < i ==> (#[trigger] self.watermarks()[k]).user_name
                    != client@,
            decreases n - i,
        {
            proof {
                assert(self.watermarks()[i as int] == self.last_seen@[i as int]@);
            }
            if str_eq(self.last_seen[i].user_name.as_str(), client) {
                proof {
                    lemma_lookup_prefix(self.watermarks(), client@, i as int);
                    assert(self.watermarks().skip(i as int)[0] == self.watermarks()[i as int]);
                }
                return Some(self.last_seen[i].last_seen);
            }
            i = i + 1;
        }
        proof {
            lemma_lookup_prefix(self.watermarks(), client@, n as int);
            assert(self.watermarks().skip(n as int).len() == 0);
        }
        None
    }

    /// Sets one name's watermark, inserting the row if the name is new.
    fn set_last_seen(&mut self, user: &str, time: u64)
        requires
            old(self).wf(),
        ensures
            final(self).wf(),
            final(self).entries() == old(self).entries(),
            forall|n: Seq<char>| #[trigger] final(self).watermark(n) == (if n == user@ {
                Some(time)
            } else {
                old(self).watermark(n)
            }),
    {
        let n = self.last_seen.len();
        let mut i: usize = 0;
        while i < n
            invariant
                0 <= i <= n,
                n == self.last_seen@.len(),
                n == self.watermarks().len(),
                self.watermarks() == old(self).watermarks(),
                self.entries() == old(self).entries(),
                old(self).wf(),
                forall|k: int| 0 <= k < i ==> (#[trigger] self.watermarks()[k]).user_name != user@,
            decreases n - i,
        {
            proof {
                assert(self.watermarks()[i as int] == self.last_seen@[i as int]@);
            }
            if str_eq(self.last_seen[i].user_name.as_str(), user) {
                let ghost before = self.watermarks();
                let name_copy = String::from_str(user);
                let row = UserData { user_name: name_copy, last_seen: time };
                self.last_seen.set(i, row);
                proof {
                    assert(self.watermarks() =~= before.update(
                        i as int,
                        UserDataView { user_name: user@, last_seen: time },
                    ));
                    assert(before[i as int].user_name == user@);
                    lemma_lookup_update(
                        before,
                        i as int,
                        UserDataView { user_name: user@, last_seen: time },
                    );
                    assert(self.entries() =~= old(self).entries());
                    assert forall|a: int, b: int|
                        0 <= a < b < self.watermarks().len() implies (
                        #[trigger] self.watermarks()[a]).user_name != (
                        #[trigger] self.watermarks()[b]).user_name by {
                        assert(before[a].user_name != before[b].user_name);
                    }
                }
                return;
            }
            i = i + 1;
        }
        let ghost before = self.watermarks();
        let row = UserData {
            user_name: String::from_str(user),
            last_seen: time,
        };
        self.last_seen.push(row);
        proof {
            let v = UserDataView { user_name: user@, last_seen: time };
            assert(self.watermarks() =~= before.push(v));
            lemma_lookup_push(before, v);
            assert(self.entries() =~= old(self).entries());
            assert forall|a: int, b: int|
                0 <= a < b < self.watermarks().len() implies (
            #[trigger] self.watermarks()[a]).user_name != (
            #[trigger] self.watermarks()[b]).user_name by {
                assert(self.watermarks()[a] == before.push(v)[a]);
                assert(self.watermarks()[b] == before.push(v)[b]);
                if b == self.watermarks().len() - 1 {
                    assert(before.contains(before[a]));
                } else {
                }
            }
        }
    }

    /// Advances the watermark of every listed name to `time` — every
    /// currently connected client has seen this moment. Names outside
    /// the list keep their watermark, so a watermark never moves unless
    /// its owner is connected.
    pub fn update_online_users(&mut self, users: &Vec<String>, time: u64)
        requires
            old(self).wf(),
        ensures
            final(self).wf(),
            final(self).entries() == old(self).entries(),
            forall|n: Seq<char>| #[trigger] final(self).watermark(n) == (
            if users.deep_view().contains(n) {
                Some(time)
            } else {
                old(self).watermark(n)
            }),
    {
        let m = users.len();
        let mut i: usize = 0;
        while i < m
            invariant
                0 <= i <= m,
                m == users@.len(),
                self.wf(),
                self.entries() == old(self).entries(),
                forall|n: Seq<char>| #[trigger] self.watermark(n) == (
                if users.deep_view().take(i as int).contains(n) {
                    Some(time)
                } else {
                    old(self).watermark(n)
                }),
            decreases m - i,
        {
            let ghost mid = *self;
            self.set_last_seen(users[i].as_str(), time);
            proof {
                assert(users.deep_view()[i as int] == users@[i as int]@);
                assert forall|n: Seq<char>| #[trigger] self.watermark(n) == (
                if users.deep_view().take(i + 1).contains(n) {
                    Some(time)
                } else {
                    old(self).watermark(n)
                }) by {
                    let dv = users.deep_view();
                    assert(dv.take(i + 1) =~= dv.take(i as int).push(dv[i as int]));
                    if n == users@[i as int]@ {
                        assert(dv.take(i + 1)[i as int] == n);
                        assert(dv.take(i + 1).contains(n));
                    } else {
                        assert(self.watermark(n) == mid.watermark(n));
                        if dv.take(i + 1).contains(n) {
                            let k = choose|k: int| 0 <= k < i + 1 && #[trigger] dv.take(i + 1)[k] == n;
                            assert(dv.take(i as int)[k] == n);
                            assert(dv.take(i as int).contains(n));
                        } else {
                            if dv.take(i as int).contains(n) {
                                let k = choose|k: int| 0 <= k < i && #[trigger] dv.take(i as int)[k] == n;
                                assert(dv.take(i + 1)[k] == n);
                            }
                        }
                    }
                }
            }
            i = i + 1;
        }
        proof {
            assert(users.deep_view().take(m as int) =~= users.deep_view());
        }
    }

    /// The rows a reconnecting client missed: every persisted row
    /// strictly newer than its watermark and not authored by it — those
    /// and no others — sorted ascending by `(time, sender)`. A name with
    /// no watermark gets an empty backlog.
    pub fn get_missing_entries(&self, user: &str) -> (r: Vec<StoredMessage>)
        ensures
            (match self.watermark(user@) {
                Some(t) => {
                    let kept = spec_missing_set(self.entries(), user@, t);
                    &&& spec_entry_views(r@).to_multiset() == kept.to_multiset()
                    &&& spec_sorted(spec_entry_views(r@))
                    &&& forall|i: int|
                        0 <= i < r@.len() ==> (#[trigger] r@[i]@).time > t && r@[i]@.user_name
                            != user@
                },
                None => r@.len() == 0,
            }),
    {
        let wm = self.get_last_online_time(user);
        match wm {
            None => Vec::new(),
            Some(t) => {
                let n = self.messages.len();
                let mut out: Vec<StoredMessage> = Vec::new();
                let mut i: usize = 0;
                proof {
                    assert(spec_entry_views(out@) =~= Seq::<StoredMessageView>::empty());
                    crate::seq_facts::lemma_filter_none(
                        self.entries().take(0),
                        spec_missing_pred(t, user@),
                    );
                    assert(spec_entry_views(out@).to_multiset() =~= spec_missing_set(
                        self.entries().take(0),
                        user@,
                        t,
                    ).to_multiset());
                }
                while i < n
                    invariant
                        0 <= i <= n,
                        n == self.messages@.len(),
                        n == self.entries().len(),
                        spec_entry_views(out@).to_multiset() == spec_missing_set(
                            self.entries().take(i as int),
                            user@,
                            t,
                        ).to_multiset(),
                        spec_sorted(spec_entry_views(out@)),
                        forall|k: int|
                            0 <= k < out@.len() ==> (#[trigger] out@[k]@).time > t
                                && out@[k]@.user_name != user@,
                    decreases n - i,
                {
                    let ghost pred = spec_missing_pred(t, user@);
                    let ghost ev = self.entries()[i as int];
                    proof {
                        assert(ev == self.messages@[i as int]@);
                        assert(self.entries().take(i + 1) =~= self.entries().take(
                            i as int,
                        ).push(ev));
                        lemma_filter_push(self.entries().take(i as int), pred, ev);
                    }
                    if self.messages[i].time > t && !str_eq(
                        self.messages[i].user_name.as_str(),
                        user,
                    ) {
                        let m = out.len();
                        let mut j: usize = 0;
                        while j < m && entry_le(&out[j], &self.messages[i])
                            invariant
                                0 <= j <= m,
                                m == out@.len(),
                                forall|k: int| 0 <= k < j ==> spec_entry_le(
                                    (#[trigger] out@[k])@,
                                    ev,
                                ),
                                ev == self.messages@[i as int]@,
                                i < self.messages@.len(),
                                spec_sorted(spec_entry_views(out@)),
                            decreases m - j,
                        {
                            proof {
                                assert(out@[j as int]@ == spec_entry_views(out@)[j as int]);
                            }
                            j = j + 1;
                        }
                        proof {
                            if j < m {
                                lemma_entry_le_total(out@[j as int]@, ev);
                            }
                        }
                        let ghost before = out@;
                        out.insert(j, self.messages[i].clone());
                        proof {
                            let bviews = spec_entry_views(before);
                            let nviews = spec_entry_views(out@);
                            assert(out@ =~= before.insert(j as int, out@[j as int]));
                            assert(out@[j as int]@ == ev);
                            assert(nviews =~= bviews.insert(j as int, ev));
                            to_multiset_insert(bviews, j as int, ev);
                            assert(spec_missing_set(self.entries().take(i + 1), user@, t)
                                =~= spec_missing_set(self.entries().take(i as int), user@, t)
                                + seq![ev]);
                            to_multiset_build(
                                spec_missing_set(self.entries().take(i as int), user@, t),
                                ev,
                            );
                            assert(spec_missing_set(self.entries().take(i as int), user@, t).push(
                                ev,
                            ) =~= spec_missing_set(self.entries().take(i as int), user@, t)
                                + seq![ev]);
                            assert forall|a: int, b: int|
                                0 <= a < b < nviews.len() implies spec_entry_le(
                                nviews[a],
                                nviews[b],
                            ) by {
                                if a < j && b == j {
                                    assert(nviews[a] == bviews[a]);
                                } else if a == j && b > j {
                                    assert(nviews[b] == bviews[b - 1]);
                                    assert(!spec_entry_le(bviews[j as int], ev));
                                    assert(spec_entry_le(ev, bviews[j as int]));
                                    if b - 1 > j {
                                        assert(spec_entry_le(bviews[j as int], bviews[b - 1]));
                                        lemma_entry_le_trans(ev, bviews[j as int], bviews[b - 1]);
                                    }
                                } else if a < j && b > j {
                                    assert(nviews[a] == bviews[a]);
                                    assert(nviews[b] == bviews[b - 1]);
                                } else if a > j && b > j {
                                    assert(nviews[a] == bviews[a - 1]);
                                    assert(nviews[b] == bviews[b - 1]);
                                } else {
                                }
                            }
                        }
                    } else {
                        proof {
                            assert(!pred(ev));
                            assert(spec_missing_set(self.entries().take(i + 1), user@, t)
                                =~= spec_missing_set(self.entries().take(i as int), user@, t));
                        }
                    }
                    i = i + 1;
                }
                proof {
                    assert(self.entries().take(n as int) =~= self.entries());
                }
                out
            },
        }
    }

    /// The missed messages themselves, in backlog order: what the hub
    /// writes to a reconnecting client before admitting it to the live
    /// registry.
    pub fn get_missing_messages(&self, user: &str) -> (r: Vec<Message>)
        ensures
            self.watermark(user@) is None ==> r@.len() == 0,
            (match self.watermark(user@) {
                Some(t) => exists|es: Seq<StoredMessageView>|
                    {
                        let kept = spec_missing_set(self.entries(), user@, t);
                        &&& #[trigger] es.to_multiset() == kept.to_multiset()
                        &&& spec_sorted(es)
                        &&& (forall|i: int|
                            0 <= i < es.len() ==> (#[trigger] es[i]).time > t && es[i].user_name
                                != user@)
                        &&& r@.map_values(|m: Message| m@) == es.map_values(
                            |e: StoredMessageView| e.message,
                        )
                    },
                None => r@.len() == 0,
            }),
    {
        let rows = self.get_missing_entries(user);
        let mut r: Vec<Message> = Vec::new();
        let n = rows.len();
        let mut i: usize = 0;
        while i < n
            invariant
                0 <= i <= n,
                n == rows@.len(),
                r@.len() == i,
                forall|k: int| 0 <= k < i ==> (#[trigger] r@[k])@ == rows@[k]@.message,
            decreases n - i,
        {
            r.push(rows[i].message.clone());
            i = i + 1;
        }
        proof {
            if self.watermark(user@) is Some {
                let es = spec_entry_views(rows@);
                assert(r@.map_values(|m: Message| m@) =~= es.map_values(
                    |e: StoredMessageView| e.message,
                ));
                let t = self.watermark(user@)->Some_0;
                let kept = spec_missing_set(self.entries(), user@, t);
                assert(es.to_multiset() == kept.to_multiset());
                assert(forall|i: int|
                    0 <= i < es.len() ==> (#[trigger] es[i]).time > t && es[i].user_name != user@)
                    by {
                    assert(forall|i: int|
                        0 <= i < rows@.len() ==> (#[trigger] rows@[i]@).time > t
                            && rows@[i]@.user_name != user@);
                    assert forall|i: int|
                        0 <= i < es.len() implies (#[trigger] es[i]).time > t && es[i].user_name
                        != user@ by {
                        assert(es[i] == rows@[i]@);
                    }
                }
            }
        }
        r
    }
}

/// The mathematical values of a sequence of rows.
pub open spec fn spec_entry_views(s: Seq<StoredMessage>) -> Seq<StoredMessageView> {
    s.map_values(|e: StoredMessage| e@)
}

/// The backlog order is transitive.
pub proof fn lemma_entry_le_trans(a: StoredMessageView, b: StoredMessageView, c: StoredMessageView)
    requires
        spec_entry_le(a, b),
        spec_entry_le(b, c),
    ensures
        spec_entry_le(a, c),
{
    if a.time == b.time && b.time == c.time {
        crate::strutil::lemma_lex_le_trans(a.user_name, b.user_name, c.user_name);
    }
}

/// Comparison of two rows in backlog order.
fn entry_le(a: &StoredMessage, b: &StoredMessage) -> (r: bool)
    ensures
        r == spec_entry_le(a@, b@),
{
    if a.time < b.time {
        true
    } else if a.time == b.time {
        str_le(a.user_name.as_str(), b.user_name.as_str())
    } else {
        false
    }
}

impl Clone for StoredMessage {
    /// Cloning keeps the row's value.
    fn clone(&self) -> (r: Self)
        ensures
            r@ == self@,
    {
        StoredMessage {
            user_name: self.user_name.clone(),
            time: self.time,
            message: self.message.clone(),
        }
    }
}

} // verus!
