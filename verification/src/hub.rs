//! The broadcast hub's state and rules. The hub owns the registry of
//! connected display names; every registration, removal and fan-out
//! decision goes through it. The socket write-halves themselves live with
//! the unverified runtime, keyed by these names; the functions here decide
//! exactly which names receive which messages.
//!
//! Invariant: the registry never holds a name twice.

use vstd::prelude::*;

use crate::codec::Message;
use crate::seq_facts::lemma_filter_push;
use crate::strutil::str_eq;

verus! {

/// No name occurs twice.
pub open spec fn unique_names(s: Seq<Seq<char>>) -> bool {
    forall|i: int, j: int| 0 <= i < j < s.len() ==> s[i] != s[j]
}

/// The registry after a registration: unchanged when the name is already
/// present, else the name appended.
pub open spec fn spec_add(s: Seq<Seq<char>>, n: Seq<char>) -> Seq<Seq<char>> {
    if s.contains(n) {
        s
    } else {
        s.push(n)
    }
}

/// The registry after a removal: the first occurrence of the name is
/// taken out; removing an absent name changes nothing.
pub open spec fn spec_remove_name(s: Seq<Seq<char>>, n: Seq<char>) -> Seq<Seq<char>>
    decreases s.len(),
{
    if s.len() == 0 {
        s
    } else if s[0] == n {
        s.drop_first()
    } else {
        seq![s[0]] + spec_remove_name(s.drop_first(), n)
    }
}

/// Holds of the names a message from `origin` is delivered to.
pub open spec fn spec_not_origin(origin: Seq<char>) -> spec_fn(Seq<char>) -> bool {
    |x: Seq<char>| x != origin
}

/// The names a message from `origin` is fanned out to: every registered
/// name but the origin's own.
pub open spec fn spec_broadcast_targets(s: Seq<Seq<char>>, origin: Seq<char>) -> Seq<Seq<char>> {
    s.filter(spec_not_origin(origin))
}

pub proof fn lemma_remove_name_absent(s: Seq<Seq<char>>, n: Seq<char>)
    requires
        forall|k: int| 0 <= k < s.len() ==> s[k] != n,
    ensures
        spec_remove_name(s, n) == s,
    decreases s.len(),
{
    if s.len() > 0 {
        lemma_remove_name_absent(s.drop_first(), n);
        assert(seq![s[0]] + s.drop_first() =~= s);
    }
}

pub proof fn lemma_remove_name_at(s: Seq<Seq<char>>, n: Seq<char>, i: int)
    requires
        0 <= i < s.len(),
        s[i] == n,
        forall|k: int| 0 <= k < i ==> s[k] != n,
    ensures
        spec_remove_name(s, n) == s.remove(i),
    decreases i,
{
    if i == 0 {
        assert(s.drop_first() =~= s.remove(0));
    } else {
        lemma_remove_name_at(s.drop_first(), n, i - 1);
        assert(seq![s[0]] + s.drop_first().remove(i - 1) =~= s.remove(i));
    }
}

/// Removal keeps uniqueness, never leaves the removed name behind when
/// names were unique, and introduces no name.
pub proof fn lemma_remove_name_props(s: Seq<Seq<char>>, n: Seq<char>)
    requires
        unique_names(s),
    ensures
        unique_names(spec_remove_name(s, n)),
        !spec_remove_name(s, n).contains(n),
        forall|x: Seq<char>| spec_remove_name(s, n).contains(x) ==> s.contains(x),
    decreases s.len(),
{
    let r = spec_remove_name(s, n);
    if s.len() == 0 {
    } else if s[0] == n {
        assert(r == s.drop_first());
        assert(forall|i: int, j: int| 0 <= i < j < r.len() ==> r[i] != r[j]);
        assert forall|x: Seq<char>| r.contains(x) implies s.contains(x) by {
            let i = choose|i: int| 0 <= i < r.len() && r[i] == x;
            assert(s[i + 1] == x);
        }
        if r.contains(n) {
            let i = choose|i: int| 0 <= i < r.len() && r[i] == n;
            assert(s[i + 1] == s[0]);
        }
    } else {
        let tail = s.drop_first();
        assert(forall|i: int, j: int| #![trigger tail[i], tail[j]] 0 <= i < j < tail.len() ==> tail[i] != tail[j]);
        lemma_remove_name_props(tail, n);
        let rt = spec_remove_name(tail, n);
        assert(r == seq![s[0]] + rt);
        assert forall|x: Seq<char>| r.contains(x) implies s.contains(x) by {
            let i = choose|i: int| 0 <= i < r.len() && r[i] == x;
            if i == 0 {
                assert(s[0] == x);
            } else {
                assert(rt[i - 1] == x);
                assert(tail.contains(x));
                let j = choose|j: int| 0 <= j < tail.len() && tail[j] == x;
                assert(s[j + 1] == x);
            }
        }
        if r.contains(n) {
            let i = choose|i: int| 0 <= i < r.len() && r[i] == n;
            assert(i > 0);
            assert(rt[i - 1] == n);
        }
        assert forall|i: int, j: int| 0 <= i < j < r.len() implies r[i] != r[j] by {
            if i == 0 {
                assert(r[j] == rt[j - 1]);
                assert(rt.contains(rt[j - 1]));
                assert(tail.contains(rt[j - 1]));
                if r[0] == rt[j - 1] {
                    let k = choose|k: int| 0 <= k < tail.len() && tail[k] == rt[j - 1];
                    assert(s[k + 1] == s[0]);
                }
            } else {
                assert(r[i] == rt[i - 1] && r[j] == rt[j - 1]);
            }
        }
    }
}

/// Idempotent quit: removing a name twice is the same as removing it
/// once. The second removal is a no-op.
pub proof fn lemma_quit_idempotent(names: Seq<Seq<char>>, name: Seq<char>)
    requires
        unique_names(names),
    ensures
        spec_remove_name(spec_remove_name(names, name), name) == spec_remove_name(names, name),
{
    lemma_remove_name_props(names, name);
    let r = spec_remove_name(names, name);
    assert(forall|k: int| 0 <= k < r.len() ==> r[k] != name) by {
        assert forall|k: int| 0 <= k < r.len() implies r[k] != name by {
            if r[k] == name {
                assert(r.contains(name));
            }
        }
    }
    lemma_remove_name_absent(r, name);
}

/// Name uniqueness: registering a name leaves it registered exactly once,
/// keeps the registry free of duplicates, and makes a later availability
/// check for the same name answer no — which is what rejects the second
/// of two concurrent hellos for one name.
pub proof fn lemma_name_uniqueness(names: Seq<Seq<char>>, name: Seq<char>)
    requires
        unique_names(names),
    ensures
        unique_names(spec_add(names, name)),
        spec_add(names, name).contains(name),
        spec_add(names, name).to_multiset().count(name) == 1,
{
    broadcast use vstd::seq_lib::group_to_multiset_ensures;

    let r = spec_add(names, name);
    if names.contains(name) {
        assert(r == names);
    } else {
        assert(r == names.push(name));
        assert(r[r.len() - 1] == name);
        assert forall|i: int, j: int| 0 <= i < j < r.len() implies r[i] != r[j] by {
            if j == r.len() - 1 {
                if r[i] == name {
                    assert(names[i] == name);
                    assert(names.contains(name));
                }
            }
        }
    }
    assert(r.no_duplicates());
    r.lemma_multiset_has_no_duplicates();
    assert(r.contains(name));
    assert(r.to_multiset().count(name) > 0);
    assert(r.to_multiset().contains(name));
}

/// An incoming message from one connection, as handed to the hub.
pub struct IncommingClientMessage {
    pub user_name: String,
    pub message: Message,
}

/// What the hub asks the surrounding runtime to do after processing one
/// inbox item: persist at most one chat message, write each listed
/// message to the named recipient's socket, and advance the last-seen
/// watermark of each touched name.
pub struct HubOutcome {
    pub to_persist: Option<Message>,
    pub sends: Vec<(String, Message)>,
    pub touch: Vec<String>,
}

/// The registry of connected clients, owned by the hub alone.
pub struct ConnectedClients {
    names: Vec<String>,
}

impl View for ConnectedClients {
    type V = Seq<Seq<char>>;

    closed spec fn view(&self) -> Seq<Seq<char>> {
        self.names.deep_view()
    }
}

impl ConnectedClients {
    /// The registry invariant: one entry per display name.
    pub open spec fn wf(self) -> bool {
        unique_names(self@)
    }

    pub fn new() -> (r: Self)
        ensures
            r@ == Seq::<Seq<char>>::empty(),
            r.wf(),
    {
        let r = ConnectedClients { names: Vec::new() };
        proof {
            assert(r@ =~= Seq::<Seq<char>>::empty());
        }
        r
    }

    /// The first registry slot holding `name`, if any.
    fn index_of(&self, name: &str) -> (r: Option<usize>)
        ensures
            match r {
                Some(i) => i < self@.len() && self@[i as int] == name@ && (forall|k: int|
                    0 <= k < i ==> self@[k] != name@),
                None => forall|k: int| 0 <= k < self@.len() ==> self@[k] != name@,
            },
    {
        let n = self.names.len();
        let mut i: usize = 0;
        while i < n
            invariant
                0 <= i <= n,
                n == self@.len(),
                n == self.names@.len(),
                forall|k: int| 0 <= k < i ==> self@[k] != name@,
            decreases n - i,
        {
            assert(self@[i as int] == self.names@[i as int]@);
            if str_eq(self.names[i].as_str(), name) {
                return Some(i);
            }
            i = i + 1;
        }
        None
    }

    /// Whether `name` is currently registered.
    pub fn contains_name(&self, name: &str) -> (r: bool)
        ensures
            r == self@.contains(name@),
    {
        let idx = self.index_of(name);
        match idx {
            Some(i) => {
                assert(self@.contains(name@));
                true
            },
            None => {
                assert(!self@.contains(name@)) by {
                    if self@.contains(name@) {
                        let k = choose|k: int| 0 <= k < self@.len() && self@[k] == name@;
                    }
                }
                false
            },
        }
    }

    /// The availability check the handshake asks for: a name can connect
    /// exactly when it is not registered at the instant the query is
    /// processed.
    pub fn check_user_can_connect(&self, user_name: &str) -> (r: bool)
        ensures
            r == !self@.contains(user_name@),
    {
        !self.contains_name(user_name)
    }

    /// Registers a name. Registering a name that is already present
    /// leaves the registry unchanged; the invariant is preserved either
    /// way.
    pub fn add(&mut self, user_name: String)
        requires
            old(self).wf(),
        ensures
            final(self).wf(),
            final(self)@ == spec_add(old(self)@, user_name@),
            final(self)@.contains(user_name@),
    {
        let present = self.contains_name(user_name.as_str());
        if !present {
            let ghost before = self@;
            self.names.push(user_name);
            proof {
                assert(self@ =~= before.push(user_name@));
                assert(self@[self@.len() - 1] == user_name@);
                lemma_name_uniqueness(before, user_name@);
            }
        }
    }

    /// Deregisters a name; removing an absent name is a no-op.
    pub fn remove(&mut self, client_to_remove: &str)
        requires
            old(self).wf(),
        ensures
            final(self).wf(),
            final(self)@ == spec_remove_name(old(self)@, client_to_remove@),
            !final(self)@.contains(client_to_remove@),
    {
        proof {
            lemma_remove_name_props(old(self)@, client_to_remove@);
        }
        let idx = self.index_of(client_to_remove);
        match idx {
            Some(i) => {
                let ghost before = self@;
                self.names.remove(i);
                proof {
                    assert(self@ =~= before.remove(i as int)) by {
                        assert(self.names@ =~= old(self).names@.remove(i as int));
                        assert forall|k: int| 0 <= k < self@.len() implies self@[k]
                            == before.remove(i as int)[k] by {
                            assert(self@[k] == self.names@[k]@);
                        }
                    }
                    lemma_remove_name_at(before, client_to_remove@, i as int);
                }
            },
            None => {
                proof {
                    lemma_remove_name_absent(self@, client_to_remove@);
                }
            },
        }
    }

    /// A copy of every registered name, in registration order.
    pub fn get_clients(&self) -> (r: Vec<String>)
        ensures
            r.deep_view() == self@,
    {
        let n = self.names.len();
        let mut r: Vec<String> = Vec::new();
        let mut i: usize = 0;
        while i < n
            invariant
                0 <= i <= n,
                n == self.names@.len(),
                n == self@.len(),
                r@.len() == i,
                r.deep_view() =~= self@.take(i as int),
            decreases n - i,
        {
            let ghost prevv = r@;
            let ghost prevdeep = r.deep_view();
            r.push(self.names[i].clone());
            proof {
                assert(r@ == prevv.push(r@[i as int]));
                assert forall|k: int| 0 <= k < r@.len() implies r.deep_view()[k] == self@.take(
                    i + 1,
                )[k] by {
                    assert(r.deep_view()[k] == r@[k]@);
                    if k < i {
                        assert(r@[k] == prevv[k]);
                        assert(prevdeep[k] == prevv[k]@);
                        assert(prevdeep[k] == self@.take(i as int)[k]);
                    } else {
                        assert(r@[k] == self.names@[i as int]);
                        assert(self@[i as int] == self.names@[i as int]@);
                    }
                }
                assert(r.deep_view() =~= self@.take(i + 1));
            }
            i = i + 1;
        }
        proof {
            assert(self@.take(n as int) =~= self@);
        }
        r
    }

    /// Builds the fan-out for one message: a copy for every registered
    /// name except the message's origin. No message is ever addressed
    /// back to its own author.
    pub fn broadcast_message(&self, incomming_message: (Message, String)) -> (sends: Vec<
        (String, Message),
    >)
        ensures
            ({
                let targets = spec_broadcast_targets(self@, incomming_message.1@);
                &&& sends@.len() == targets.len()
                &&& forall|i: int|
                    0 <= i < sends@.len() ==> sends@[i].0@ == targets[i] && sends@[i].1@
                        == incomming_message.0@
            }),
            forall|i: int| 0 <= i < sends@.len() ==> sends@[i].0@ != incomming_message.1@,
    {
        let (msg, message_origin_client) = incomming_message;
        let ghost origin = message_origin_client@;
        let ghost pred = spec_not_origin(origin);
        let n = self.names.len();
        let mut sends: Vec<(String, Message)> = Vec::new();
        let mut i: usize = 0;
        while i < n
            invariant
                0 <= i <= n,
                n == self.names@.len(),
                n == self@.len(),
                origin == message_origin_client@,
                pred == spec_not_origin(origin),
                ({
                    let targets = self@.take(i as int).filter(pred);
                    &&& sends@.len() == targets.len()
                    &&& forall|k: int|
                        0 <= k < sends@.len() ==> sends@[k].0@ == targets[k] && sends@[k].1@
                            == msg@
                }),
            decreases n - i,
        {
            proof {
                assert(self@.take(i + 1) =~= self@.take(i as int).push(self@[i as int]));
                lemma_filter_push(self@.take(i as int), pred, self@[i as int]);
                assert(self@[i as int] == self.names@[i as int]@);
            }
            let ghost old_sends = sends@;
            let ghost old_targets = self@.take(i as int).filter(pred);
            if !str_eq(self.names[i].as_str(), message_origin_client.as_str()) {
                sends.push((self.names[i].clone(), msg.clone()));
                proof {
                    let targets = self@.take(i + 1).filter(pred);
                    assert(targets =~= old_targets.push(self@[i as int]));
                    assert(sends@.len() == targets.len());
                    assert forall|k: int|
                        0 <= k < sends@.len() implies sends@[k].0@ == targets[k] && sends@[k].1@
                        == msg@ by {
                        if k < old_sends.len() {
                            assert(sends@[k] == old_sends[k]);
                            assert(targets[k] == old_targets[k]);
                        } else {
                            assert(sends@[k].0@ == self@[i as int]);
                        }
                    }
                }
            } else {
                proof {
                    assert(self@.take(i + 1).filter(pred) =~= old_targets);
                }
            }
            i = i + 1;
        }
        proof {
            assert(self@.take(n as int) =~= self@);
            let targets = self@.filter(pred);
            assert forall|k: int| 0 <= k < sends@.len() implies sends@[k].0@
                != incomming_message.1@ by {
                self@.lemma_filter_pred(pred, k);
                assert(sends@[k].0@ == targets[k]);
            }
        }
        sends
    }

    /// Processes one incoming chat item, the hub's central rule.
    ///
    /// A `ClientQuit` deregisters its sender and asks for nothing else;
    /// deregistering twice is a no-op. Any other message leaves the
    /// registry unchanged and is fanned out to every registered name but
    /// the sender; a chat-shaped message (text, image, file) is also
    /// persisted, and the last-seen watermark of every currently
    /// registered name is advanced.
    #[verifier::rlimit(30)]
    pub fn handle_incomming_chat_message(&mut self, user_name: String, message: Message) -> (out:
        HubOutcome)
        requires
            old(self).wf(),
        ensures
            final(self).wf(),
            message@ is ClientQuit ==> {
                &&& final(self)@ == spec_remove_name(old(self)@, user_name@)
                &&& !final(self)@.contains(user_name@)
                &&& out.to_persist is None
                &&& out.sends@.len() == 0
                &&& out.touch@.len() == 0
            },
            !(message@ is ClientQuit) ==> {
                &&& final(self)@ == old(self)@
                &&& (message@.is_chat() ==> (out.to_persist matches Some(p) && p@ == message@))
                &&& (!message@.is_chat() ==> out.to_persist is None)
                &&& ({
                    let targets = spec_broadcast_targets(old(self)@, user_name@);
                    &&& out.sends@.len() == targets.len()
                    &&& forall|i: int|
                        0 <= i < out.sends@.len() ==> out.sends@[i].0@ == targets[i]
                            && out.sends@[i].1@ == message@
                })
                &&& out.touch.deep_view() == old(self)@
            },
            forall|i: int| 0 <= i < out.sends@.len() ==> out.sends@[i].0@ != user_name@,
    {
        let is_quit = match &message {
            Message::ClientQuit { .. } => true,
            _ => false,
        };
        if is_quit {
            self.remove(user_name.as_str());
            return HubOutcome { to_persist: None, sends: Vec::new(), touch: Vec::new() };
        }
        let to_persist = match &message {
            Message::Text { .. } | Message::Image { .. } | Message::File { .. } => Some(
                message.clone(),
            ),
            _ => None,
        };
        let touch = self.get_clients();
        let ghost gm = message@;
        let ghost gu = user_name@;
        let pair = (message, user_name);
        proof {
            assert(pair.0@ == gm);
            assert(pair.1@ == gu);
        }
        let sends = self.broadcast_message(pair);
        proof {
            let targets = spec_broadcast_targets(self@, gu);
            assert(sends@.len() == targets.len());
            assert forall|i: int|
                0 <= i < sends@.len() implies (#[trigger] sends@[i]).0@ == targets[i]
                && sends@[i].1@ == gm by {
                assert(sends@[i].0@ == spec_broadcast_targets(self@, pair.1@)[i]);
                assert(sends@[i].1@ == pair.0@);
            }
            assert(touch.deep_view() == self@);
        }
        HubOutcome { to_persist, sends, touch }
    }

    /// Admits a freshly accepted connection: the missed-message backlog
    /// is addressed to the new client, in order, and only then does the
    /// name enter the live registry.
    pub fn register_client(&mut self, user_name: String, missing_messages: &Vec<Message>) -> (sends:
        Vec<(String, Message)>)
        requires
            old(self).wf(),
        ensures
            final(self).wf(),
            final(self)@ == spec_add(old(self)@, user_name@),
            final(self)@.contains(user_name@),
            sends@.len() == missing_messages@.len(),
            forall|i: int|
                0 <= i < sends@.len() ==> sends@[i].0@ == user_name@ && sends@[i].1@
                    == missing_messages@[i]@,
    {
        let n = missing_messages.len();
        let mut sends: Vec<(String, Message)> = Vec::new();
        let mut i: usize = 0;
        while i < n
            invariant
                0 <= i <= n,
                n == missing_messages@.len(),
                sends@.len() == i,
                forall|k: int|
                    0 <= k < i ==> (#[trigger] sends@[k]).0@ == user_name@ && sends@[k].1@
                        == missing_messages@[k]@,
            decreases n - i,
        {
            let ghost old_sends = sends@;
            sends.push((user_name.clone(), missing_messages[i].clone()));
            proof {
                assert forall|k: int|
                    0 <= k < i + 1 implies sends@[k].0@ == user_name@ && sends@[k].1@
                    == missing_messages@[k]@ by {
                    if k < i {
                        assert(sends@[k] == old_sends[k]);
                        assert(old_sends[k].0@ == user_name@ && old_sends[k].1@
                            == missing_messages@[k]@);
                    } else {
                        assert(sends@[k].0@ == user_name@);
                        assert(sends@[k].1@ == missing_messages@[k]@);
                    }
                }
            }
            i = i + 1;
        }
        self.add(user_name);
        sends
    }
}

} // verus!
