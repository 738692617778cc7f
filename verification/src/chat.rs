//! The chat server: the registry of connected sessions, the choice of a
//! session identifier, and the routing of chat messages.

use std::collections::HashMap;
use vstd::prelude::*;
use crate::text::{chars_of, decimal, push_chars, push_decimal, same_chars};

verus! {

broadcast use vstd::std_specs::hash::group_hash_axioms;

/// The identifier of a session.
pub type SessionId = u16;

/// The identifier under which the server itself sends messages.
pub open spec fn server_session_id() -> u16 {
    u16::MAX
}

/// Whether `id` is the smallest identifier that a client may take and that no
/// session of `sessions` holds. The server's own identifier,
/// `server_session_id()`, is never one a client may take.
pub open spec fn is_lowest_free<S>(sessions: Map<u16, S>, id: u16) -> bool {
    &&& id < server_session_id()
    &&& !sessions.contains_key(id)
    &&& forall|j: u16| j < id ==> #[trigger] sessions.contains_key(j)
}

/// Whether every identifier that a client may take is held.
pub open spec fn clients_full<S>(sessions: Map<u16, S>) -> bool {
    forall|j: u16| j < server_session_id() ==> #[trigger] sessions.contains_key(j)
}

/// Why a connection is refused.
#[derive(Debug, Clone, Copy, PartialEq, Eq, Structural)]
pub enum ConnectError {
    /// Every identifier that a client may take is held.
    NoFreeId,
}

/// A call made to the chat server.
#[derive(Debug, PartialEq, Eq)]
pub enum ChatMessage {
    /// `text` was sent by the session `from`.
    Send { from: u16, text: String },
}

/// A message to deliver: its text, and the sessions that receive it.
#[derive(Debug)]
pub struct Broadcast {
    pub text: String,
    pub recipients: Vec<u16>,
}

/// The text that the recipients of a message see: `from <sender>: <text>`.
pub open spec fn relayed_text(from: u16, text: Seq<char>) -> Seq<char> {
    seq!['f', 'r', 'o', 'm', ' '] + decimal(from as nat) + seq![':', ' '] + text
}

/// The message that the server itself sends with the text `text`, under the
/// identifier it reserves for itself.
pub fn server_message(text: String) -> (r: ChatMessage)
    ensures
        r == (ChatMessage::Send { from: server_session_id(), text }),
{
    ChatMessage::Send { from: u16::MAX, text }
}

/// The state that one connected session keeps: its identifier.
#[derive(Debug, Clone, Copy, PartialEq, Eq, Structural)]
pub struct ChatSession {
    pub id: u16,
}

impl ChatSession {
    /// The identifier of the session.
    pub fn id(&self) -> (r: u16)
        ensures
            r == self.id,
    {
        self.id
    }

    /// The call that a text received by this session makes to the server:
    /// the text, sent by this session.
    pub fn on_text(&self, text: String) -> (r: ChatMessage)
        ensures
            r == (ChatMessage::Send { from: self.id, text }),
    {
        ChatMessage::Send { from: self.id, text }
    }
}

/// The connected sessions, each under its identifier; `S` is the handle by
/// which a session is reached.
pub struct ChatServer<S> {
    sessions: HashMap<u16, S>,
    /// Every identifier below `taken_below` is held: the search for a free
    /// identifier starts there.
    taken_below: u16,
}

impl<S> View for ChatServer<S> {
    type V = Map<u16, S>;

    /// The sessions, by identifier.
    closed spec fn view(&self) -> Map<u16, S> {
        self.sessions@
    }
}

impl<S> ChatServer<S> {
    #[verifier::type_invariant]
    spec fn low_ids_taken(&self) -> bool {
        forall|j: u16| j < self.taken_below ==> #[trigger] self.sessions@.contains_key(j)
    }

    /// A server with no session.
    pub fn new() -> (r: Self)
        ensures
            r@ == Map::<u16, S>::empty(),
    {
        ChatServer { sessions: HashMap::new(), taken_below: 0 }
    }

    /// The number of connected sessions.
    pub fn len(&self) -> (r: usize)
        ensures
            r == self@.len(),
    {
        self.sessions.len()
    }

    /// Whether the session `id` is connected.
    pub fn contains(&self, id: u16) -> (r: bool)
        ensures
            r == self@.contains_key(id),
    {
        self.sessions.contains_key(&id)
    }

    /// The handle of the session `id`, if it is connected.
    pub fn session(&self, id: u16) -> (r: Option<&S>)
        ensures
            match r {
                Some(s) => self@.contains_key(id) && *s == self@[id],
                None => !self@.contains_key(id),
            },
    {
        self.sessions.get(&id)
    }

    /// The smallest identifier that a client may take and no session holds,
    /// or `None` where every such identifier is taken.
    pub fn free_session_id(&self) -> (r: Option<u16>)
        ensures
            match r {
                Some(id) => is_lowest_free(self@, id),
                None => clients_full(self@),
            },
    {
        proof {
            use_type_invariant(self);
        }
        let mut i: u16 = self.taken_below;
        while i < u16::MAX
            invariant
                forall|j: u16| j < i ==> #[trigger] self@.contains_key(j),
            decreases u16::MAX - i,
        {
            if !self.sessions.contains_key(&i) {
                return Some(i);
            }
            i = i + 1;
        }
        None
    }

    /// Registers a new connection: it takes the smallest identifier that a
    /// client may take and no session holds, and the session that `create`
    /// makes for that identifier is kept under it. Returns the identifier, or
    /// refuses the connection, with the registry unchanged, where no such
    /// identifier is left.
    pub fn on_connect<F: FnOnce(u16) -> S>(&mut self, create: F) -> (r: Result<u16, ConnectError>)
        requires
            forall|j: u16| create.requires((j,)),
        ensures
            match r {
                Ok(id) => {
                    &&& is_lowest_free(old(self)@, id)
                    &&& final(self)@.dom() == old(self)@.dom().insert(id)
                    &&& final(self)@.len() == old(self)@.len() + 1
                    &&& forall|j: u16| j != id ==> #[trigger] final(self)@.get(j) == old(self)@.get(j)
                    &&& create.ensures((id,), final(self)@[id])
                },
                Err(e) => {
                    &&& e == ConnectError::NoFreeId
                    &&& clients_full(old(self)@)
                    &&& final(self)@ == old(self)@
                },
            },
    {
        let id = match self.free_session_id() {
            Some(id) => id,
            None => {
                return Err(ConnectError::NoFreeId);
            },
        };
        let session = create(id);
        let mut sessions = HashMap::new();
        self.taken_below = 0;
        std::mem::swap(&mut sessions, &mut self.sessions);
        sessions.insert(id, session);
        std::mem::swap(&mut sessions, &mut self.sessions);
        self.taken_below = id + 1;
        Ok(id)
    }

    /// Forgets the session `id`, which must be connected.
    pub fn on_disconnect(&mut self, id: u16)
        requires
            old(self)@.contains_key(id),
        ensures
            final(self)@ == old(self)@.remove(id),
            final(self)@.len() == old(self)@.len() - 1,
    {
        proof {
            use_type_invariant(&*self);
        }
        let mut sessions = HashMap::new();
        if id < self.taken_below {
            self.taken_below = id;
        }
        let low = self.taken_below;
        self.taken_below = 0;
        std::mem::swap(&mut sessions, &mut self.sessions);
        let _ = sessions.remove(&id);
        std::mem::swap(&mut sessions, &mut self.sessions);
        self.taken_below = low;
    }

    /// Routes a chat message: every connected session but the sender
    /// receives `from <sender>: <text>`, once.
    pub fn on_call(&self, call: ChatMessage) -> (r: Broadcast)
        ensures
            match call {
                ChatMessage::Send { from, text } => {
                    &&& r.text@ == relayed_text(from, text@)
                    &&& r.recipients@.no_duplicates()
                    &&& r.recipients@.to_set() == self@.dom().remove(from)
                },
            },
    {
        match call {
            ChatMessage::Send { from, text } => {
                let mut recipients: Vec<u16> = Vec::new();
                let keys = self.sessions.keys();
                for k in it: keys
                    invariant
                        it.seq().unref().to_set() == self@.dom(),
                        it.seq().unref().no_duplicates(),
                        recipients@.no_duplicates(),
                        it.index() == it.seq().len() ==> recipients@.to_set() == self@.dom().remove(
                            from,
                        ),
                        forall|x: u16|
                            #![trigger recipients@.contains(x)]
                            recipients@.contains(x) <==> (x != from && it.seq().take(
                                it.index() as int,
                            ).unref().contains(x)),
                {
                    let ghost i = it.index();
                    let ghost done = it.seq().take(i).unref();
                    assert(it.seq().take(i + 1).unref() =~= done.push(*k));
                    assert(*k == it.seq().unref()[i]);
                    assert(!done.contains(*k)) by {
                        if done.contains(*k) {
                            let j = choose|j: int| 0 <= j < done.len() && done[j] == *k;
                            assert(it.seq().unref()[j] == it.seq().unref()[i]);
                        }
                    }
                    if *k != from {
                        let ghost before = recipients@;
                        recipients.push(*k);
                        assert forall|x: u16| #[trigger] recipients@.contains(x) <==> (x
                            != from && done.push(*k).contains(x)) by {
                            if recipients@.contains(x) {
                                let j = choose|j: int| 0 <= j < recipients@.len() && recipients@[j] == x;
                                if j < before.len() {
                                    assert(before.contains(x));
                                    assert(done.push(*k)[done.len() as int] == *k);
                                    let m = choose|m: int| 0 <= m < done.len() && done[m] == x;
                                    assert(done.push(*k)[m] == x);
                                } else {
                                    assert(x == *k);
                                    assert(done.push(*k)[done.len() as int] == x);
                                }
                            }
                            if x != from && done.push(*k).contains(x) {
                                let m = choose|m: int| 0 <= m < done.len() + 1 && done.push(*k)[m] == x;
                                if m < done.len() {
                                    assert(done[m] == x);
                                    assert(done.contains(x));
                                    assert(before.contains(x));
                                    let j = choose|j: int| 0 <= j < before.len() && before[j] == x;
                                    assert(recipients@[j] == x);
                                } else {
                                    assert(recipients@[before.len() as int] == x);
                                }
                            }
                        }
                        assert forall|p: int, q: int|
                            0 <= p < recipients@.len() && 0 <= q < recipients@.len() && p != q
                            implies recipients@[p] != recipients@[q] by {
                            if p == before.len() {
                                assert(before.contains(recipients@[q]));
                            } else if q == before.len() {
                                assert(before.contains(recipients@[p]));
                            }
                        }
                    } else {
                        assert forall|x: u16| #[trigger] recipients@.contains(x) <==> (x
                            != from && done.push(*k).contains(x)) by {
                            if x != from && done.push(*k).contains(x) {
                                let m = choose|m: int| 0 <= m < done.len() + 1 && done.push(*k)[m] == x;
                                if m < done.len() {
                                    assert(done.contains(x));
                                }
                            }
                            if recipients@.contains(x) {
                                let m = choose|m: int| 0 <= m < done.len() && done[m] == x;
                                assert(done.push(*k)[m] == x);
                            }
                        }
                    }
                    assert(i + 1 == it.seq().len() ==> it.seq().take(i + 1) =~= it.seq());
                    assert(i + 1 == it.seq().len() ==> recipients@.to_set() =~= self@.dom().remove(
                        from,
                    ));
                }
                let mut out = String::new();
                let prefix = ['f', 'r', 'o', 'm', ' '];
                push_chars(&mut out, prefix.as_slice());
                push_decimal(&mut out, from as u32);
                let sep = [':', ' '];
                push_chars(&mut out, sep.as_slice());
                let body = chars_of(text.as_str());
                push_chars(&mut out, body.as_slice());
                Broadcast { text: out, recipients }
            },
        }
    }
}

/// A connection followed by its disconnection leaves the registry as it was:
/// the state after `on_connect` (`connected`, with the identifier `id`),
/// once `on_disconnect(id)` removes `id`, equals the state before.
pub proof fn law_connect_then_disconnect_restores<S>(
    before: Map<u16, S>,
    connected: Map<u16, S>,
    id: u16,
)
    requires
        before.dom().finite(),
        is_lowest_free(before, id),
        connected.dom() == before.dom().insert(id),
        forall|j: u16| j != id ==> #[trigger] connected.get(j) == before.get(j),
    ensures
        connected.remove(id) == before,
{
    assert forall|j: u16| #[trigger] connected.remove(id).dom().contains(j) <==> before.dom().contains(j) by {}
    assert forall|j: u16| #[trigger] connected.remove(id).contains_key(j) implies connected.remove(id)[j] == before[j] by {
        assert(connected.get(j) == before.get(j));
    }
    assert(connected.remove(id) =~= before);
}

/// An identifier that a disconnection frees is taken again before any larger
/// one: after `on_disconnect(k)`, the identifier that the next `on_connect`
/// picks is at most `k`.
pub proof fn law_freed_id_is_reused_first<S>(sessions: Map<u16, S>, k: u16, next: u16)
    requires
        sessions.contains_key(k),
        is_lowest_free(sessions.remove(k), next),
    ensures
        next <= k,
{
    if next > k {
        assert(sessions.remove(k).contains_key(k));
    }
}

/// No session holds the identifier that the server reserves for itself.
pub open spec fn keeps_server_id_free<S>(sessions: Map<u16, S>) -> bool {
    !sessions.contains_key(server_session_id())
}

/// A connected session: its state, and the handle by which it is reached.
pub struct SessionEntry<H> {
    pub session: ChatSession,
    pub handle: H,
}

/// Every session is kept under its own identifier.
pub open spec fn entries_hold_ids<H>(sessions: Map<u16, SessionEntry<H>>) -> bool {
    forall|k: u16| #[trigger] sessions.contains_key(k) ==> sessions[k].session.id == k
}

/// The chat server's registry of connected sessions, each kept with the
/// `ChatSession` made for it. Whatever calls brought it to its state, every
/// session is kept under its own identifier, so that no two sessions share
/// one, and none holds the identifier that the server reserves for itself:
/// `new` establishes both, and `on_connect`, `on_disconnect` and `on_call`
/// state both of the registry they leave.
pub struct ChatRegistry<H> {
    server: ChatServer<SessionEntry<H>>,
}

impl<H> View for ChatRegistry<H> {
    type V = Map<u16, SessionEntry<H>>;

    /// The sessions, by identifier.
    closed spec fn view(&self) -> Map<u16, SessionEntry<H>> {
        self.server@
    }
}

impl<H> ChatRegistry<H> {
    #[verifier::type_invariant]
    spec fn sound(&self) -> bool {
        &&& entries_hold_ids(self.server@)
        &&& keeps_server_id_free(self.server@)
    }

    /// A registry with no session.
    pub fn new() -> (r: Self)
        ensures
            r@ == Map::<u16, SessionEntry<H>>::empty(),
            entries_hold_ids(r@),
            keeps_server_id_free(r@),
    {
        ChatRegistry { server: ChatServer::new() }
    }

    /// The number of connected sessions.
    pub fn len(&self) -> (r: usize)
        ensures
            r == self@.len(),
    {
        self.server.len()
    }

    /// Whether the session `id` is connected.
    pub fn contains(&self, id: u16) -> (r: bool)
        ensures
            r == self@.contains_key(id),
    {
        self.server.contains(id)
    }

    /// The session `id`, if it is connected.
    pub fn session(&self, id: u16) -> (r: Option<&SessionEntry<H>>)
        ensures
            match r {
                Some(e) => self@.contains_key(id) && *e == self@[id],
                None => !self@.contains_key(id),
            },
    {
        self.server.session(id)
    }

    /// The smallest identifier that a client may take and no session holds,
    /// or `None` where every such identifier is taken.
    pub fn free_session_id(&self) -> (r: Option<u16>)
        ensures
            match r {
                Some(id) => is_lowest_free(self@, id),
                None => clients_full(self@),
            },
    {
        self.server.free_session_id()
    }

    /// Registers a new connection reached by `handle`: it takes the smallest
    /// identifier that a client may take and no session holds, and the
    /// session made for that identifier is kept under it with the handle.
    /// Returns the identifier, or refuses the connection, with the registry
    /// unchanged, where no such identifier is left.
    pub fn on_connect(&mut self, handle: H) -> (r: Result<u16, ConnectError>)
        ensures
            entries_hold_ids(final(self)@),
            keeps_server_id_free(final(self)@),
            match r {
                Ok(id) => {
                    &&& is_lowest_free(old(self)@, id)
                    &&& final(self)@ == old(self)@.insert(
                        id,
                        SessionEntry { session: ChatSession { id }, handle },
                    )
                },
                Err(e) => {
                    &&& e == ConnectError::NoFreeId
                    &&& clients_full(old(self)@)
                    &&& final(self)@ == old(self)@
                },
            },
    {
        proof {
            use_type_invariant(&*self);
        }
        let ghost h = handle;
        let make = move |id: u16| -> (e: SessionEntry<H>)
            ensures
                e.session.id == id,
                e.handle == h,
            { SessionEntry { session: ChatSession { id }, handle } };
        let mut server = ChatServer::new();
        std::mem::swap(&mut server, &mut self.server);
        let ghost before = server@;
        let r = server.on_connect(make);
        proof {
            if let Ok(id) = r {
                let e = server@[id];
                assert(make.ensures((id,), e));
                assert(e.session == ChatSession { id });
                assert(e.handle == h);
                assert(e == SessionEntry { session: ChatSession { id }, handle: h });
                assert forall|k: u16| k != id implies #[trigger] server@.get(k) == before.get(k) by {}
                assert forall|k: u16| #[trigger] server@.contains_key(k) <==> before.insert(
                    id,
                    e,
                ).contains_key(k) by {
                    if k != id {
                        assert(server@.get(k) == before.get(k));
                    }
                }
                assert forall|k: u16| #[trigger] server@.contains_key(k) implies server@[k]
                    == before.insert(id, e)[k] by {
                    if k != id {
                        assert(server@.get(k) == before.get(k));
                    }
                }
                assert(server@ =~= before.insert(id, SessionEntry { session: ChatSession { id }, handle: h }));
                assert forall|k: u16| #[trigger] server@.contains_key(k) implies server@[k].session.id
                    == k by {
                    if k != id {
                        assert(server@.get(k) == before.get(k));
                    }
                }
            }
        }
        std::mem::swap(&mut server, &mut self.server);
        proof {
            use_type_invariant(&*self);
        }
        r
    }

    /// Forgets the session `id`, which must be connected.
    pub fn on_disconnect(&mut self, id: u16)
        requires
            old(self)@.contains_key(id),
        ensures
            final(self)@ == old(self)@.remove(id),
            entries_hold_ids(final(self)@),
            keeps_server_id_free(final(self)@),
    {
        proof {
            use_type_invariant(&*self);
        }
        let mut server = ChatServer::new();
        std::mem::swap(&mut server, &mut self.server);
        server.on_disconnect(id);
        std::mem::swap(&mut server, &mut self.server);
        proof {
            use_type_invariant(&*self);
        }
    }

    /// Routes a chat message: every connected session but the sender
    /// receives `from <sender>: <text>`, once.
    pub fn on_call(&self, call: ChatMessage) -> (r: Broadcast)
        ensures
            match call {
                ChatMessage::Send { from, text } => {
                    &&& r.text@ == relayed_text(from, text@)
                    &&& r.recipients@.no_duplicates()
                    &&& r.recipients@.to_set() == self@.dom().remove(from)
                },
            },
            entries_hold_ids(self@),
            keeps_server_id_free(self@),
    {
        proof {
            use_type_invariant(self);
        }
        self.server.on_call(call)
    }
}

/// Whether a connection is turned away: it is, where its `kick_me` query
/// parameter is `Yes`.
pub fn rejects_connection(kick_me: Option<&str>) -> (r: bool)
    ensures
        r == (match kick_me {
            Some(v) => v@ == seq!['Y', 'e', 's'],
            None => false,
        }),
{
    match kick_me {
        Some(v) => {
            let chars = chars_of(v);
            let yes = ['Y', 'e', 's'];
            same_chars(chars.as_slice(), yes.as_slice())
        },
        None => false,
    }
}

} // verus!
